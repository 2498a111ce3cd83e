//! Decimal text of integers, as Rust's integer `FromStr` and `Display` read
//! and write it.

use vstd::prelude::*;

use crate::strings::{chars_of, push_char};

verus! {

/// Whether `c` is an ASCII decimal digit.
pub open spec fn is_digit(c: char) -> bool {
    '0' <= c && c <= '9'
}

/// The value of an ASCII decimal digit.
pub open spec fn digit_value(c: char) -> int {
    (c as int) - ('0' as int)
}

/// The ASCII decimal digit of a value below ten.
pub open spec fn digit_char(d: int) -> char {
    if d == 0 {
        '0'
    } else if d == 1 {
        '1'
    } else if d == 2 {
        '2'
    } else if d == 3 {
        '3'
    } else if d == 4 {
        '4'
    } else if d == 5 {
        '5'
    } else if d == 6 {
        '6'
    } else if d == 7 {
        '7'
    } else if d == 8 {
        '8'
    } else {
        '9'
    }
}

/// The value of a string of decimal digits.
pub open spec fn digits_value(t: Seq<char>) -> int
    decreases t.len(),
{
    if t.len() == 0 {
        0
    } else {
        digits_value(t.drop_last()) * 10 + digit_value(t.last())
    }
}

/// Whether `t` is a non-empty string of decimal digits.
pub open spec fn all_digits(t: Seq<char>) -> bool {
    t.len() > 0 && forall|k: int| 0 <= k < t.len() ==> is_digit(#[trigger] t[k])
}

/// The integer that decimal text `t` denotes: an optional `+` sign (or a `-`
/// sign where negative values are allowed) followed by one or more digits.
pub open spec fn parse_decimal(t: Seq<char>, signed: bool) -> Option<int> {
    if t.len() > 0 && t[0] == '+' {
        if all_digits(t.drop_first()) {
            Some(digits_value(t.drop_first()))
        } else {
            None
        }
    } else if signed && t.len() > 0 && t[0] == '-' {
        if all_digits(t.drop_first()) {
            Some(-digits_value(t.drop_first()))
        } else {
            None
        }
    } else if all_digits(t) {
        Some(digits_value(t))
    } else {
        None
    }
}

/// The decimal digits of a natural number, without leading zeros.
pub open spec fn digits_of(n: nat) -> Seq<char>
    decreases n,
{
    if n < 10 {
        seq![digit_char(n as int)]
    } else {
        digits_of(n / 10) + seq![digit_char((n % 10) as int)]
    }
}

/// The decimal text of an integer: a `-` sign for a negative one, then its digits.
pub open spec fn decimal_text(v: int) -> Seq<char> {
    if v < 0 {
        seq!['-'] + digits_of((-v) as nat)
    } else {
        digits_of(v as nat)
    }
}

proof fn lemma_digit_char(d: int)
    requires
        0 <= d < 10,
    ensures
        is_digit(digit_char(d)),
        digit_value(digit_char(d)) == d,
{

}

/// The digits of `n` are digits, and they denote `n`.
pub proof fn lemma_digits_of(n: nat)
    ensures
        all_digits(digits_of(n)),
        digits_value(digits_of(n)) == n,
    decreases n,
{
    if n < 10 {
        lemma_digit_char(n as int);
        assert(seq![digit_char(n as int)].drop_last() =~= Seq::<char>::empty());
        assert(digits_value(Seq::<char>::empty()) == 0);
    } else {
        lemma_digits_of(n / 10);
        lemma_digit_char((n % 10) as int);
        let t = digits_of(n);
        assert(t.drop_last() =~= digits_of(n / 10));
        assert forall|k: int| 0 <= k < t.len() implies is_digit(#[trigger] t[k]) by {
            if k < t.len() - 1 {
                assert(t[k] == digits_of(n / 10)[k]);
            }
        }
    }
}

/// Decimal text of an integer reads back as that integer.
pub proof fn lemma_decimal_round_trip(v: int, signed: bool)
    requires
        signed || v >= 0,
    ensures
        parse_decimal(decimal_text(v), signed) == Some(v),
{
    if v < 0 {
        lemma_digits_of((-v) as nat);
        let t = decimal_text(v);
        assert(t.drop_first() =~= digits_of((-v) as nat));
    } else {
        lemma_digits_of(v as nat);
        let t = digits_of(v as nat);
        assert(is_digit(t[0]));
    }
}

proof fn lemma_digits_value_step(t: Seq<char>, k: int)
    requires
        0 <= k < t.len(),
    ensures
        digits_value(t.subrange(0, k + 1)) == digits_value(t.subrange(0, k)) * 10 + digit_value(t[k]),
{
    assert(t.subrange(0, k + 1).drop_last() =~= t.subrange(0, k));
}

/// Digits only add to the value of the digits before them.
proof fn lemma_digits_value_grows(t: Seq<char>, k: int)
    requires
        0 <= k <= t.len(),
        all_digits(t),
    ensures
        digits_value(t.subrange(0, k)) <= digits_value(t),
    decreases t.len() - k,
{
    if k < t.len() {
        lemma_digits_value_grows(t, k + 1);
        lemma_digits_value_step(t, k);
        assert(is_digit(t[k]));
        assert(digits_value(t.subrange(0, k)) >= 0) by {
            lemma_digits_value_nonneg(t.subrange(0, k));
        }
    } else {
        assert(t.subrange(0, k) =~= t);
    }
}

proof fn lemma_digits_value_nonneg(t: Seq<char>)
    requires
        forall|k: int| 0 <= k < t.len() ==> is_digit(#[trigger] t[k]),
    ensures
        digits_value(t) >= 0,
    decreases t.len(),
{
    if t.len() > 0 {
        lemma_digits_value_nonneg(t.drop_last());
        assert(is_digit(t[t.len() - 1]));
    }
}

/// The value of the digits of `t` from `start` on, as an `i128` no greater
/// than `bound`, or `None` when they are not all digits or exceed `bound`.
fn digits_within(t: &Vec<char>, start: usize, bound: i128) -> (r: Option<i128>)
    requires
        start <= t@.len(),
        0 <= bound,
    ensures
        r matches Some(v) ==> all_digits(t@.subrange(start as int, t@.len() as int)) && v
            == digits_value(t@.subrange(start as int, t@.len() as int)) && 0 <= v <= bound,
        r is None ==> !all_digits(t@.subrange(start as int, t@.len() as int)) || digits_value(
            t@.subrange(start as int, t@.len() as int),
        ) > bound,
{
    let ghost u = t@.subrange(start as int, t@.len() as int);
    if start == t.len() {
        return None;
    }
    let mut acc: i128 = 0;
    let mut k: usize = start;
    while k < t.len()
        invariant
            start <= k <= t@.len(),
            u == t@.subrange(start as int, t@.len() as int),
            forall|m: int| 0 <= m < k - start ==> is_digit(#[trigger] u[m]),
            acc == digits_value(u.subrange(0, k - start)),
            0 <= acc <= bound,
        decreases t@.len() - k,
    {
        let c = t[k];
        assert(u[k - start] == c);
        if !('0' <= c && c <= '9') {
            return None;
        }
        let d = (c as u32 - '0' as u32) as i128;
        proof {
            lemma_digits_value_step(u, k - start);
            assert(u[k - start] == c);
        }
        if d > bound || acc > (bound - d) / 10 {
            proof {
                assert(acc * 10 + d > bound) by (nonlinear_arith)
                    requires
                        d > bound || acc > (bound - d) / 10,
                        0 <= acc,
                        0 <= d < 10,
                        0 <= bound,
                ;
                if all_digits(u) {
                    lemma_digits_value_grows(u, k - start + 1);
                }
            }
            return None;
        }
        proof {
            assert(acc * 10 + d <= bound) by (nonlinear_arith)
                requires
                    acc <= (bound - d) / 10,
                    d <= bound,
                    0 <= d < 10,
                    0 <= bound,
            ;
        }
        acc = acc * 10 + d;
        k = k + 1;
    }
    proof {
        assert(u.subrange(0, k - start) =~= u);
    }
    Some(acc)
}

/// The integer that `text` denotes when it lies in `[min, max]`.
pub fn parse_integer(text: &str, signed: bool, min: i128, max: i128) -> (r: Option<i128>)
    requires
        min <= 0 <= max,
        signed ==> min < 0,
        -min <= i128::MAX,
    ensures
        r matches Some(v) ==> parse_decimal(text@, signed) == Some(v as int) && min <= v <= max,
        r is None ==> match parse_decimal(text@, signed) {
            Some(v) => v < min || v > max,
            None => true,
        },
{
    let t = chars_of(text);
    if t.len() > 0 && t[0] == '+' {
        let r = digits_within(&t, 1, max);
        proof {
            assert(t@.subrange(1, t@.len() as int) =~= text@.drop_first());
        }
        r
    } else if signed && t.len() > 0 && t[0] == '-' {
        let r = digits_within(&t, 1, -min);
        proof {
            assert(t@.subrange(1, t@.len() as int) =~= text@.drop_first());
        }
        match r {
            Some(v) => Some(-v),
            None => None,
        }
    } else {
        let r = digits_within(&t, 0, max);
        proof {
            assert(t@.subrange(0, t@.len() as int) =~= text@);
        }
        r
    }
}

/// The decimal digits of `n`.
fn digits_text(n: u128) -> (r: Vec<char>)
    ensures
        r@ == digits_of(n as nat),
    decreases n,
{
    if n < 10 {
        let mut r: Vec<char> = Vec::new();
        r.push(digit_of(n));
        proof {
            assert(r@ =~= seq![digit_char(n as int)]);
        }
        r
    } else {
        let mut r = digits_text(n / 10);
        r.push(digit_of(n % 10));
        r
    }
}

/// The digit character of a value below ten.
fn digit_of(d: u128) -> (c: char)
    requires
        d < 10,
    ensures
        c == digit_char(d as int),
{
    if d == 0 {
        '0'
    } else if d == 1 {
        '1'
    } else if d == 2 {
        '2'
    } else if d == 3 {
        '3'
    } else if d == 4 {
        '4'
    } else if d == 5 {
        '5'
    } else if d == 6 {
        '6'
    } else if d == 7 {
        '7'
    } else if d == 8 {
        '8'
    } else {
        '9'
    }
}

/// The decimal text of `v`, as `Display` writes an integer.
pub fn integer_text(v: i128) -> (r: String)
    requires
        v > i128::MIN,
    ensures
        r@ == decimal_text(v as int),
{
    let mut out = String::new();
    let magnitude: u128 = if v < 0 {
        push_char(&mut out, '-');
        (-v) as u128
    } else {
        v as u128
    };
    let digits = digits_text(magnitude);
    let mut k: usize = 0;
    let ghost prefix = out@;
    while k < digits.len()
        invariant
            k <= digits@.len(),
            out@ == prefix + digits@.subrange(0, k as int),
        decreases digits@.len() - k,
    {
        push_char(&mut out, digits[k]);
        proof {
            assert(digits@.subrange(0, k + 1) =~= digits@.subrange(0, k as int).push(digits@[k as int]));
        }
        k = k + 1;
    }
    proof {
        assert(digits@.subrange(0, digits@.len() as int) =~= digits@);
        if v < 0 {
            assert(prefix =~= seq!['-']);
        } else {
            assert(prefix =~= Seq::<char>::empty());
        }
        assert(out@ =~= decimal_text(v as int));
    }
    out
}

} // verus!
