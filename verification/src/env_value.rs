//! How the text of an environment variable becomes a JSON value: a boolean
//! literal, else an `i64` literal, else a float literal, else a string.

use vstd::prelude::*;
use crate::json::{Json, JsonNumber, JsonValue, Num};

verus! {

/// The boolean that `s` spells, as `bool::from_str` reads it.
pub open spec fn bool_literal(s: Seq<char>) -> Option<bool> {
    if s == seq!['t', 'r', 'u', 'e'] {
        Some(true)
    } else if s == seq!['f', 'a', 'l', 's', 'e'] {
        Some(false)
    } else {
        None
    }
}

/// An ASCII decimal digit.
pub open spec fn is_digit(c: char) -> bool {
    '0' <= c <= '9'
}

/// The value of a decimal digit.
pub open spec fn digit_value(c: char) -> int {
    c as int - '0' as int
}

/// The value of a string of decimal digits.
pub open spec fn digits_value(d: Seq<char>) -> int
    decreases d.len(),
{
    if d.len() == 0 {
        0
    } else {
        10 * digits_value(d.drop_last()) + digit_value(d.last())
    }
}

/// Every character of `d` is a decimal digit.
pub open spec fn all_digits(d: Seq<char>) -> bool {
    forall|i: int| 0 <= i < d.len() ==> is_digit(#[trigger] d[i])
}

/// The integer that `s` spells as `i64::from_str` reads it: an optional `+`
/// or `-`, then one or more decimal digits, with a value in the range of
/// `i64`.
pub open spec fn i64_literal(s: Seq<char>) -> Option<int> {
    let negative = s.len() > 0 && s[0] == '-';
    let signed = s.len() > 0 && (s[0] == '-' || s[0] == '+');
    let d = if signed {
        s.drop_first()
    } else {
        s
    };
    let v = if negative {
        -digits_value(d)
    } else {
        digits_value(d)
    };
    if d.len() > 0 && all_digits(d) && i64::MIN <= v <= i64::MAX {
        Some(v)
    } else {
        None
    }
}

/// The JSON number of an integer, in the shape a JSON parser gives it.
pub open spec fn int_number(n: int) -> Num {
    if n >= 0 {
        Num::PosInt(n as u64)
    } else {
        Num::NegInt(n as i64)
    }
}

/// What reading the text of an environment variable as an `f64` literal
/// (with `str::parse`) gave.
pub enum FloatReading {
    /// The text is no `f64` literal.
    NotFloat,
    /// The text reads as an infinity or a NaN, which no JSON number holds.
    NonFinite,
    /// The text reads as a finite float; this is the text that `serde_json`
    /// writes for that float.
    Finite(String),
}

/// The JSON value of the environment variable text `raw`, given what
/// reading it as an `f64` literal gave: a boolean, else an integer, else a
/// finite float, else (also for an infinity or a NaN) the text itself as a
/// string.
pub open spec fn typed_value(raw: Seq<char>, reading: FloatReading) -> Json {
    match bool_literal(raw) {
        Some(b) => Json::Bool(b),
        None => match i64_literal(raw) {
            Some(n) => Json::Number(int_number(n)),
            None => match reading {
                FloatReading::Finite(text) => Json::Number(Num::Float(text@)),
                _ => Json::Str(raw),
            },
        },
    }
}

/// The value of a prefix of a digit string is at most that of the string.
pub proof fn lemma_digits_value_monotone(d: Seq<char>, k: int)
    requires
        all_digits(d),
        0 <= k <= d.len(),
    ensures
        0 <= digits_value(d.take(k)) <= digits_value(d),
    decreases d.len(),
{
    if d.len() > 0 {
        assert(is_digit(d[d.len() - 1]));
        if k == d.len() {
            assert(d.take(k) =~= d);
            lemma_digits_value_monotone(d.drop_last(), d.len() - 1);
            assert(d.drop_last().take(d.len() - 1) =~= d.drop_last());
        } else {
            lemma_digits_value_monotone(d.drop_last(), k);
            assert(d.drop_last().take(k) =~= d.take(k));
            lemma_digits_value_monotone(d.drop_last(), d.len() - 1);
            assert(d.drop_last().take(d.len() - 1) =~= d.drop_last());
        }
    }
}

/// `a` and `b` spell the same characters.
pub fn str_equal(a: &str, b: &str) -> (same: bool)
    ensures
        same == (a@ == b@),
{
    let n = a.unicode_len();
    let m = b.unicode_len();
    if n != m {
        return false;
    }
    let mut i: usize = 0;
    while i < n
        invariant
            n == a@.len(),
            n == b@.len(),
            i <= n,
            forall|j: int| 0 <= j < i ==> a@[j] == b@[j],
        decreases n - i,
    {
        if a.get_char(i) != b.get_char(i) {
            return false;
        }
        i = i + 1;
    }
    proof {
        assert(a@ =~= b@);
    }
    true
}

/// Reads `s` as `bool::from_str` does.
pub fn parse_bool(s: &str) -> (b: Option<bool>)
    ensures
        b == bool_literal(s@),
{
    let t = "true";
    let f = "false";
    proof {
        reveal_strlit("true");
        reveal_strlit("false");
        assert(t@ =~= seq!['t', 'r', 'u', 'e']);
        assert(f@ =~= seq!['f', 'a', 'l', 's', 'e']);
    }
    if str_equal(s, t) {
        Some(true)
    } else if str_equal(s, f) {
        Some(false)
    } else {
        None
    }
}

/// Reads `s` as `i64::from_str` does.
#[verifier::loop_isolation(false)]
pub fn parse_i64(s: &str) -> (v: Option<i64>)
    ensures
        match v {
            Some(n) => i64_literal(s@) == Some(n as int),
            None => i64_literal(s@) is None,
        },
{
    let n = s.unicode_len();
    if n == 0 {
        return None;
    }
    let first = s.get_char(0);
    let negative = first == '-';
    let start: usize = if first == '-' || first == '+' {
        1
    } else {
        0
    };
    assert(s@[0] == first);
    let ghost d = if start == 1 {
        s@.drop_first()
    } else {
        s@
    };
    if start == n {
        return None;
    }
    let limit: u64 = 0x8000_0000_0000_0000;
    let mut acc: u64 = 0;
    let mut i: usize = start;
    while i < n
        invariant
            n == s@.len(),
            start <= i <= n,
            start <= 1,
            d == s@.subrange(start as int, n as int),
            all_digits(d.take(i - start)),
            acc == digits_value(d.take(i - start)),
            acc <= limit,
        decreases n - i,
    {
        let c = s.get_char(i);
        let ghost k = i - start;
        proof {
            assert(d[k] == c);
            assert(d.take(k + 1).drop_last() =~= d.take(k));
        }
        if !('0' <= c && c <= '9') {
            proof {
                assert(!is_digit(d[k]));
            }
            return None;
        }
        let digit: u64 = (c as u32 - '0' as u32) as u64;
        assert(digit <= 9 && digit == digit_value(c));
        if acc > (limit - digit) / 10 {
            proof {
                assert(all_digits(d.take(k + 1)));
                if all_digits(d) {
                    lemma_digits_value_monotone(d, k + 1);
                }
            }
            return None;
        }
        acc = acc * 10 + digit;
        i = i + 1;
    }
    proof {
        assert(d.take(n - start) =~= d);
    }
    if negative {
        if acc == limit {
            Some(i64::MIN)
        } else {
            Some(-(acc as i64))
        }
    } else if acc > 0x7fff_ffff_ffff_ffff {
        None
    } else {
        Some(acc as i64)
    }
}

/// The JSON value of the environment variable text `raw`: a boolean when it
/// is `true` or `false`, else an integer when it is an `i64` literal, else
/// the float when `reading` found a finite one, else the text itself as a
/// string.
pub fn env_value_to_json(raw: &str, reading: &FloatReading) -> (value: JsonValue)
    ensures
        value@ == typed_value(raw@, *reading),
{
    if let Some(b) = parse_bool(raw) {
        return JsonValue::Bool(b);
    }
    if let Some(n) = parse_i64(raw) {
        if n >= 0 {
            return JsonValue::Number(JsonNumber::PosInt(n as u64));
        } else {
            return JsonValue::Number(JsonNumber::NegInt(n));
        }
    }
    match reading {
        FloatReading::Finite(text) => JsonValue::Number(JsonNumber::Float(text.clone())),
        _ => JsonValue::String(String::from_str(raw)),
    }
}

/// What an environment variable's text becomes: a string value is always
/// the whole text, unchanged; the text `true` or `false` becomes that
/// boolean and no other text does; an integer literal becomes that
/// integer; otherwise a finite float reading becomes that float, and any
/// other text becomes a string holding the text.
pub proof fn lemma_env_text_values(raw: Seq<char>, reading: FloatReading)
    ensures
        typed_value(raw, reading) matches Json::Str(t) ==> t == raw,
        typed_value(raw, reading) == Json::Bool(true) <==> raw == seq!['t', 'r', 'u', 'e'],
        typed_value(raw, reading) == Json::Bool(false) <==> raw == seq!['f', 'a', 'l', 's', 'e'],
        i64_literal(raw) matches Some(n) ==> typed_value(raw, reading) == Json::Number(
            int_number(n),
        ),
        raw != seq!['t', 'r', 'u', 'e'] && raw != seq!['f', 'a', 'l', 's', 'e'] && i64_literal(raw)
            is None ==> typed_value(raw, reading) == match reading {
            FloatReading::Finite(text) => Json::Number(Num::Float(text@)),
            _ => Json::Str(raw),
        },
{
    if raw == seq!['t', 'r', 'u', 'e'] || raw == seq!['f', 'a', 'l', 's', 'e'] {
        assert(raw.len() > 0 && !is_digit(raw[0]) && raw[0] != '-' && raw[0] != '+');
        assert(i64_literal(raw) is None);
    }
}

} // verus!
