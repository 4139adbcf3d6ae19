//! Coercions from JSON values to the scalars of `RowBinary`.

use vstd::prelude::*;
use vstd::string::*;

use crate::dynamic::answers::{
    entry_of, product_of, Answers, AnswersView, Float, Question, QuestionView,
};
use crate::dynamic::error::{enc_err, refusal, DynamicError, DynamicErrorView};
use crate::dynamic::time::{parse_i64, spelled_i64};
use crate::dynamic::value::{Json, Value};
use crate::text::{
    chars_of, find_from, find_last, last_of, next_of, parse_signed, parse_unsigned, parse_within,
    same_chars, spells, text_of, trim, trimmed, Strip,
};

verus! {

// ---------------------------------------------------------------------------
// Integers
// ---------------------------------------------------------------------------

/// A value as a 64-bit unsigned integer. A double is cut towards zero.
pub open spec fn unsigned_of(v: Json, col: Seq<char>) -> Result<nat, DynamicErrorView> {
    match v {
        Json::Number(n) => match (n.unsigned, n.signed, n.float) {
            (Some(u), _, _) => Ok(u as nat),
            (None, Some(i), _) if i >= 0 => Ok(i as nat),
            (None, None, Some(f)) if f.within_u64() => Ok(f.unsigned as nat),
            _ => Err(refusal(col, "not a valid unsigned integer"@)),
        },
        Json::Bool(b) => Ok(
            if b {
                1
            } else {
                0
            },
        ),
        Json::String(s) => match parse_within(trim(s, Strip::White), false, 0, u64::MAX as int) {
            Some(u) => Ok(u as nat),
            None => Err(refusal(col, "string not parseable as u64"@)),
        },
        _ => Err(refusal(col, "expected number"@)),
    }
}

/// A value as a 64-bit signed integer. A double is cut towards zero.
pub open spec fn signed_of(v: Json, col: Seq<char>) -> Result<int, DynamicErrorView> {
    match v {
        Json::Number(n) => match (n.signed, n.unsigned, n.float) {
            (Some(i), _, _) => Ok(i as int),
            (None, Some(u), _) if u <= i64::MAX => Ok(u as int),
            (None, None, Some(f)) if f.within_i64() => Ok(f.signed as int),
            _ => Err(refusal(col, "not a valid integer"@)),
        },
        Json::Bool(b) => Ok(
            if b {
                1
            } else {
                0
            },
        ),
        Json::String(s) => match spelled_i64(trim(s, Strip::White)) {
            Some(i) => Ok(i),
            None => Err(refusal(col, "string not parseable as i64"@)),
        },
        _ => Err(refusal(col, "expected number"@)),
    }
}

/// A value as a 128-bit unsigned integer.
pub open spec fn wide_unsigned_of(v: Json, col: Seq<char>) -> Result<nat, DynamicErrorView> {
    match v {
        Json::Number(n) => match (n.unsigned, n.signed) {
            (Some(u), _) => Ok(u as nat),
            (None, Some(i)) if i >= 0 => Ok(i as nat),
            _ => Err(refusal(col, "not a valid u128"@)),
        },
        Json::Bool(b) => Ok(
            if b {
                1
            } else {
                0
            },
        ),
        Json::String(s) => match parse_within(trim(s, Strip::White), false, 0, u128::MAX as int) {
            Some(u) => Ok(u as nat),
            None => Err(refusal(col, "string not parseable as u128"@)),
        },
        _ => Err(refusal(col, "expected number"@)),
    }
}

/// A value as a 128-bit signed integer.
pub open spec fn wide_signed_of(v: Json, col: Seq<char>) -> Result<int, DynamicErrorView> {
    match v {
        Json::Number(n) => match (n.signed, n.unsigned) {
            (Some(i), _) => Ok(i as int),
            (None, Some(u)) => Ok(u as int),
            (None, None) => Err(refusal(col, "not a valid i128"@)),
        },
        Json::Bool(b) => Ok(
            if b {
                1
            } else {
                0
            },
        ),
        Json::String(s) => match parse_within(
            trim(s, Strip::White),
            true,
            i128::MIN as int,
            i128::MAX as int,
        ) {
            Some(i) => Ok(i),
            None => Err(refusal(col, "string not parseable as i128"@)),
        },
        _ => Err(refusal(col, "expected number"@)),
    }
}

pub(crate) fn as_u64(value: &Value, col: &str) -> (r: Result<u64, DynamicError>)
    ensures
        match r {
            Ok(u) => unsigned_of(value@, col@) == Ok::<nat, DynamicErrorView>(u as nat),
            Err(e) => unsigned_of(value@, col@) == Err::<nat, DynamicErrorView>(e@),
        },
{
    match value {
        Value::Number(n) => {
            if let Some(u) = n.unsigned {
                return Ok(u);
            }
            if let Some(i) = n.signed {
                return if i >= 0 {
                    Ok(i as u64)
                } else {
                    Err(enc_err(col, "not a valid unsigned integer"))
                };
            }
            match n.float {
                Some(f) if f.fits_u64() => Ok(f.unsigned),
                _ => Err(enc_err(col, "not a valid unsigned integer")),
            }
        },
        Value::Bool(b) => Ok(
            if *b {
                1
            } else {
                0
            },
        ),
        Value::String(s) => {
            let chars = chars_of(s.as_str());
            match parse_unsigned(trimmed(chars.as_slice(), Strip::White), u64::MAX as u128) {
                Some(u) => Ok(u as u64),
                None => Err(enc_err(col, "string not parseable as u64")),
            }
        },
        _ => Err(enc_err(col, "expected number")),
    }
}

pub(crate) fn as_i64(value: &Value, col: &str) -> (r: Result<i64, DynamicError>)
    ensures
        match r {
            Ok(i) => signed_of(value@, col@) == Ok::<int, DynamicErrorView>(i as int),
            Err(e) => signed_of(value@, col@) == Err::<int, DynamicErrorView>(e@),
        },
{
    match value {
        Value::Number(n) => {
            if let Some(i) = n.signed {
                return Ok(i);
            }
            if let Some(u) = n.unsigned {
                return if u <= i64::MAX as u64 {
                    Ok(u as i64)
                } else {
                    Err(enc_err(col, "not a valid integer"))
                };
            }
            match n.float {
                Some(f) if f.fits_i64() => Ok(f.signed),
                _ => Err(enc_err(col, "not a valid integer")),
            }
        },
        Value::Bool(b) => Ok(
            if *b {
                1
            } else {
                0
            },
        ),
        Value::String(s) => {
            let chars = chars_of(s.as_str());
            match parse_i64(trimmed(chars.as_slice(), Strip::White)) {
                Some(i) => Ok(i),
                None => Err(enc_err(col, "string not parseable as i64")),
            }
        },
        _ => Err(enc_err(col, "expected number")),
    }
}

pub(crate) fn as_u128(value: &Value, col: &str) -> (r: Result<u128, DynamicError>)
    ensures
        match r {
            Ok(u) => wide_unsigned_of(value@, col@) == Ok::<nat, DynamicErrorView>(u as nat),
            Err(e) => wide_unsigned_of(value@, col@) == Err::<nat, DynamicErrorView>(e@),
        },
{
    match value {
        Value::Number(n) => {
            if let Some(u) = n.unsigned {
                return Ok(u as u128);
            }
            match n.signed {
                Some(i) if i >= 0 => Ok(i as u128),
                _ => Err(enc_err(col, "not a valid u128")),
            }
        },
        Value::Bool(b) => Ok(
            if *b {
                1
            } else {
                0
            },
        ),
        Value::String(s) => {
            let chars = chars_of(s.as_str());
            match parse_unsigned(trimmed(chars.as_slice(), Strip::White), u128::MAX) {
                Some(u) => Ok(u),
                None => Err(enc_err(col, "string not parseable as u128")),
            }
        },
        _ => Err(enc_err(col, "expected number")),
    }
}

pub(crate) fn as_i128(value: &Value, col: &str) -> (r: Result<i128, DynamicError>)
    ensures
        match r {
            Ok(i) => wide_signed_of(value@, col@) == Ok::<int, DynamicErrorView>(i as int),
            Err(e) => wide_signed_of(value@, col@) == Err::<int, DynamicErrorView>(e@),
        },
{
    match value {
        Value::Number(n) => {
            if let Some(i) = n.signed {
                return Ok(i as i128);
            }
            match n.unsigned {
                Some(u) => Ok(u as i128),
                None => Err(enc_err(col, "not a valid i128")),
            }
        },
        Value::Bool(b) => Ok(
            if *b {
                1
            } else {
                0
            },
        ),
        Value::String(s) => {
            let chars = chars_of(s.as_str());
            match parse_signed(trimmed(chars.as_slice(), Strip::White), i128::MIN, i128::MAX) {
                Some(i) => Ok(i),
                None => Err(enc_err(col, "string not parseable as i128")),
            }
        },
        _ => Err(enc_err(col, "expected number")),
    }
}

// ---------------------------------------------------------------------------
// Booleans
// ---------------------------------------------------------------------------

/// `c` in lower case, where it is an ASCII letter.
pub open spec fn lower(c: char) -> char {
    if 'A' <= c <= 'Z' {
        (c as nat + 32) as char
    } else {
        c
    }
}

/// `s` with its ASCII letters in lower case.
pub open spec fn lowered(s: Seq<char>) -> Seq<char> {
    s.map_values(|c: char| lower(c))
}

/// The boolean that a lower-case word stands for.
pub open spec fn word_bool(w: Seq<char>) -> Option<bool> {
    if w == "true"@ || w == "yes"@ || w == "1"@ {
        Some(true)
    } else if w == "false"@ || w == "no"@ || w == "0"@ || w == ""@ {
        Some(false)
    } else {
        None
    }
}

/// A value as a boolean.
pub open spec fn bool_of(v: Json, col: Seq<char>) -> Result<bool, DynamicErrorView> {
    match v {
        Json::Bool(b) => Ok(b),
        Json::Number(n) => Ok(n.signed matches Some(i) && i != 0),
        Json::String(s) => match word_bool(lowered(trim(s, Strip::White))) {
            Some(b) => Ok(b),
            None => Err(refusal(col, "string not parseable as bool"@)),
        },
        Json::Null => Ok(false),
        _ => Err(refusal(col, "expected bool"@)),
    }
}

fn to_lower(s: &[char]) -> (out: Vec<char>)
    ensures
        out@ == lowered(s@),
{
    let mut out: Vec<char> = Vec::new();
    let mut i: usize = 0;
    while i < s.len()
        invariant
            i <= s.len(),
            out@ =~= lowered(s@.take(i as int)),
        decreases s.len() - i,
    {
        let c = s[i];
        let d: char = if 'A' <= c && c <= 'Z' {
            (c as u8 + 32) as char
        } else {
            c
        };
        out.push(d);
        i += 1;
        assert(s@.take(i as int) =~= s@.take(i - 1).push(c));
    }
    assert(s@.take(i as int) =~= s@);
    out
}

pub(crate) fn as_bool(value: &Value, col: &str) -> (r: Result<bool, DynamicError>)
    ensures
        match r {
            Ok(b) => bool_of(value@, col@) == Ok::<bool, DynamicErrorView>(b),
            Err(e) => bool_of(value@, col@) == Err::<bool, DynamicErrorView>(e@),
        },
{
    match value {
        Value::Bool(b) => Ok(*b),
        Value::Number(n) => match n.signed {
            Some(i) => Ok(i != 0),
            None => Ok(false),
        },
        Value::String(s) => {
            let chars = chars_of(s.as_str());
            let word = to_lower(trimmed(chars.as_slice(), Strip::White));
            let w = word.as_slice();
            if spells(w, "true") || spells(w, "yes") || spells(w, "1") {
                Ok(true)
            } else if spells(w, "false") || spells(w, "no") || spells(w, "0") || spells(w, "") {
                Ok(false)
            } else {
                Err(enc_err(col, "string not parseable as bool"))
            }
        },
        Value::Null => Ok(false),
        _ => Err(enc_err(col, "expected bool")),
    }
}

// ---------------------------------------------------------------------------
// Floating point and decimals
// ---------------------------------------------------------------------------

/// The double that a text spells, by the answers; `message` where it spells
/// none.
pub open spec fn answered_float(
    t: Seq<char>,
    message: Seq<char>,
    col: Seq<char>,
    a: AnswersView,
) -> Result<Float, DynamicErrorView> {
    match entry_of(a.floats, t) {
        Some(Some(f)) => Ok(f),
        Some(None) => Err(refusal(col, message)),
        None => Err(DynamicErrorView::AnswerNeeded(QuestionView::Float(t))),
    }
}

/// A value as a double.
pub open spec fn float_of(v: Json, col: Seq<char>, a: AnswersView) -> Result<
    Float,
    DynamicErrorView,
> {
    match v {
        Json::Number(n) => match n.float {
            Some(f) => Ok(f),
            None => Err(refusal(col, "not a valid float"@)),
        },
        Json::String(s) => answered_float(
            trim(s, Strip::White),
            "string not parseable as f64"@,
            col,
            a,
        ),
        _ => Err(refusal(col, "expected number"@)),
    }
}

/// The bits of the double one.
pub const ONE_BITS: u64 = 0x3ff0_0000_0000_0000;

/// The bits of the double that a decimal is made from.
pub open spec fn decimal_source(v: Json, col: Seq<char>, a: AnswersView) -> Result<
    u64,
    DynamicErrorView,
> {
    match v {
        Json::Number(n) => match n.float {
            Some(f) => Ok(f.bits),
            None => Err(refusal(col, "invalid decimal"@)),
        },
        Json::String(s) => match answered_float(
            trim(s, Strip::White),
            "string not parseable as decimal"@,
            col,
            a,
        ) {
            Ok(f) => if f.is_nan() {
                Err(refusal(col, "string not parseable as decimal"@))
            } else {
                Ok(f.bits)
            },
            Err(e) => Err(e),
        },
        Json::Bool(b) => Ok(
            if b {
                ONE_BITS
            } else {
                0
            },
        ),
        _ => Err(refusal(col, "expected decimal number"@)),
    }
}

/// The backing integer of a decimal with `scale` fractional digits; `overflow`
/// where it takes more than 128 bits.
pub open spec fn decimal_of(
    v: Json,
    scale: u8,
    col: Seq<char>,
    overflow: Seq<char>,
    a: AnswersView,
) -> Result<int, DynamicErrorView> {
    match decimal_source(v, col, a) {
        Ok(bits) => match product_of(a.scaled, bits, scale) {
            Some(Some(x)) => Ok(x as int),
            Some(None) => Err(refusal(col, overflow)),
            None => Err(DynamicErrorView::AnswerNeeded(QuestionView::Scaled { bits, scale })),
        },
        Err(e) => Err(e),
    }
}

fn ask_float(t: &[char], message: &str, col: &str, answers: &Answers) -> (r: Result<
    Float,
    DynamicError,
>)
    ensures
        match r {
            Ok(f) => answered_float(t@, message@, col@, answers@) == Ok::<Float, DynamicErrorView>(
                f,
            ),
            Err(e) => answered_float(t@, message@, col@, answers@) == Err::<
                Float,
                DynamicErrorView,
            >(e@),
        },
{
    let text = text_of(t);
    match answers.float(text.as_str()) {
        Some(Some(f)) => Ok(f),
        Some(None) => Err(enc_err(col, message)),
        None => Err(DynamicError::AnswerNeeded(Question::Float(text))),
    }
}

pub(crate) fn as_float(value: &Value, col: &str, answers: &Answers) -> (r: Result<
    Float,
    DynamicError,
>)
    ensures
        match r {
            Ok(f) => float_of(value@, col@, answers@) == Ok::<Float, DynamicErrorView>(f),
            Err(e) => float_of(value@, col@, answers@) == Err::<Float, DynamicErrorView>(e@),
        },
{
    match value {
        Value::Number(n) => match n.float {
            Some(f) => Ok(f),
            None => Err(enc_err(col, "not a valid float")),
        },
        Value::String(s) => {
            let chars = chars_of(s.as_str());
            ask_float(
                trimmed(chars.as_slice(), Strip::White),
                "string not parseable as f64",
                col,
                answers,
            )
        },
        _ => Err(enc_err(col, "expected number")),
    }
}

/// Compute the backing integer for a `Decimal(P, S)` by scaling the value by
/// `10^scale`; the concrete width is applied by the caller.
pub(crate) fn decimal_backing_i128(
    value: &Value,
    scale: u8,
    col: &str,
    overflow: &str,
    answers: &Answers,
) -> (r: Result<i128, DynamicError>)
    ensures
        match r {
            Ok(x) => decimal_of(value@, scale, col@, overflow@, answers@) == Ok::<
                int,
                DynamicErrorView,
            >(x as int),
            Err(e) => decimal_of(value@, scale, col@, overflow@, answers@) == Err::<
                int,
                DynamicErrorView,
            >(e@),
        },
{
    let bits: u64 = match value {
        Value::Number(n) => match n.float {
            Some(f) => f.bits,
            None => return Err(enc_err(col, "invalid decimal")),
        },
        Value::String(s) => {
            let chars = chars_of(s.as_str());
            let f = ask_float(
                trimmed(chars.as_slice(), Strip::White),
                "string not parseable as decimal",
                col,
                answers,
            )?;
            if f.not_a_number() {
                return Err(enc_err(col, "string not parseable as decimal"));
            }
            f.bits
        },
        Value::Bool(b) => if *b {
            ONE_BITS
        } else {
            0
        },
        _ => return Err(enc_err(col, "expected decimal number")),
    };
    match answers.scaled(bits, scale) {
        Some(Some(x)) => Ok(x),
        Some(None) => Err(enc_err(col, overflow)),
        None => Err(DynamicError::AnswerNeeded(Question::Scaled { bits, scale })),
    }
}

// ---------------------------------------------------------------------------
// Enums
// ---------------------------------------------------------------------------

/// The name of an enum member, without blanks and quotes.
pub open spec fn label_of(s: Seq<char>) -> Seq<char> {
    trim(trim(trim(s, Strip::White), Strip::One('\'')), Strip::One('"'))
}

/// The next place of `c` outside quotes, at or behind `from`; `quote` is the
/// quote that is open there. A backslash within quotes takes the meaning from
/// the character behind it.
pub open spec fn next_bare(s: Seq<char>, c: char, from: nat, quote: Option<char>) -> nat
    decreases s.len() + 1 - from,
{
    if from >= s.len() {
        s.len()
    } else {
        let x = s[from as int];
        match quote {
            Some(q) => if x == '\\' {
                next_bare(s, c, from + 2, quote)
            } else if x == q {
                next_bare(s, c, from + 1, None)
            } else {
                next_bare(s, c, from + 1, quote)
            },
            None => if x == c {
                from
            } else if x == '\'' || x == '"' {
                next_bare(s, c, from + 1, Some(x))
            } else {
                next_bare(s, c, from + 1, None)
            },
        }
    }
}

/// The number of the member `name` in the list of members from `from` on. A
/// list with a member that has no number is no list.
pub open spec fn member_value(list: Seq<char>, name: Seq<char>, from: nat) -> Option<int>
    decreases list.len() + 1 - from,
{
    let end = next_bare(list, ',', from, None);
    let equals = next_bare(list, '=', from, None);
    if from > list.len() || equals >= end {
        None
    } else if label_of(list.subrange(from as int, equals as int)) == name {
        spelled_i64(trim(list.subrange(equals as int + 1, end as int), Strip::White))
    } else if end >= list.len() || end < from {
        None
    } else {
        member_value(list, name, end + 1)
    }
}

/// The number of the member `name` of an enum type.
pub open spec fn enum_value(t: Seq<char>, name: Seq<char>) -> Option<int> {
    let start = next_of(t, '(', 0);
    match last_of(t, ')', t.len()) {
        Some(end) if start < end => member_value(
            t.subrange(start as int + 1, end as int),
            name,
            0,
        ),
        _ => None,
    }
}

/// The number that a value stands for in an enum type.
pub open spec fn enum_of(v: Json, t: Seq<char>, col: Seq<char>) -> Result<int, DynamicErrorView> {
    match v {
        Json::Number(_) => signed_of(v, col),
        Json::Bool(_) => signed_of(v, col),
        Json::String(s) => match spelled_i64(trim(s, Strip::White)) {
            Some(i) => Ok(i),
            None => match enum_value(t, s) {
                Some(i) => Ok(i),
                None => Err(refusal(col, "enum string not found in type definition"@)),
            },
        },
        _ => Err(refusal(col, "expected enum value"@)),
    }
}

fn find_bare(s: &[char], c: char, from: usize) -> (at: usize)
    requires
        from <= s@.len(),
    ensures
        at == next_bare(s@, c, from as nat, None),
        from <= at <= s@.len(),
{
    let mut i: usize = from;
    let mut quote: Option<char> = None;
    while i < s.len()
        invariant
            from <= i <= s.len(),
            next_bare(s@, c, from as nat, None) == next_bare(s@, c, i as nat, quote),
        decreases s.len() - i,
    {
        let x = s[i];
        match quote {
            Some(q) => {
                if x == '\\' {
                    if i + 1 >= s.len() {
                        assert(next_bare(s@, c, (i + 2) as nat, quote) == s@.len());
                        return s.len();
                    }
                    i += 1;
                } else if x == q {
                    quote = None;
                }
            },
            None => {
                if x == c {
                    return i;
                }
                if x == '\'' || x == '"' {
                    quote = Some(x);
                }
            },
        }
        i += 1;
    }
    s.len()
}

/// Look up `name` in an `Enum8(...)`/`Enum16(...)` definition, returning its
/// integer discriminant. Members look like `'name' = 1` separated by commas;
/// a comma or an equals sign within quotes belongs to the name.
pub fn enum_member_value(t: &[char], name: &[char]) -> (out: Option<i64>)
    ensures
        match out {
            Some(i) => enum_value(t@, name@) == Some(i as int),
            None => enum_value(t@, name@) is None,
        },
{
    let start: usize = find_from(t, '(', 0);
    let close: usize = match find_last(t, ')') {
        Some(i) => i,
        None => return None,
    };
    if start >= close {
        return None;
    }
    let list = vstd::slice::slice_subrange(t, start + 1, close);
    let mut from: usize = 0;
    loop
        invariant
            from <= list.len(),
            enum_value(t@, name@) == member_value(list@, name@, 0),
            member_value(list@, name@, 0) == member_value(list@, name@, from as nat),
        decreases list.len() + 1 - from,
    {
        let end: usize = find_bare(list, ',', from);
        let equals: usize = find_bare(list, '=', from);
        if equals >= end {
            return None;
        }
        let label = trimmed(
            trimmed(
                trimmed(vstd::slice::slice_subrange(list, from, equals), Strip::White),
                Strip::One('\''),
            ),
            Strip::One('"'),
        );
        if same_chars(label, name) {
            return parse_i64(
                trimmed(vstd::slice::slice_subrange(list, equals + 1, end), Strip::White),
            );
        }
        if end >= list.len() {
            return None;
        }
        from = end + 1;
    }
}

/// Resolve an enum value to its signed discriminant. A numeric value is used
/// directly; a string is mapped via the `Enum8(...)` / `Enum16(...)` member
/// list of the type string.
pub(crate) fn enum_discriminant(value: &Value, type_str: &str, col: &str) -> (r: Result<
    i64,
    DynamicError,
>)
    ensures
        match r {
            Ok(i) => enum_of(value@, type_str@, col@) == Ok::<int, DynamicErrorView>(i as int),
            Err(e) => enum_of(value@, type_str@, col@) == Err::<int, DynamicErrorView>(e@),
        },
{
    match value {
        Value::Number(_) | Value::Bool(_) => as_i64(value, col),
        Value::String(s) => {
            let chars = chars_of(s.as_str());
            // A numeric string is treated as the discriminant directly.
            if let Some(i) = parse_i64(trimmed(chars.as_slice(), Strip::White)) {
                return Ok(i);
            }
            let members = chars_of(type_str);
            match enum_member_value(members.as_slice(), chars.as_slice()) {
                Some(i) => Ok(i),
                None => Err(enc_err(col, "enum string not found in type definition")),
            }
        },
        _ => Err(enc_err(col, "expected enum value")),
    }
}

} // verus!
