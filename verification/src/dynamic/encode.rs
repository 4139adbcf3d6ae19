//! Dynamic `RowBinary` encoder.
//!
//! Turns a runtime-shaped JSON object plus its resolved ClickHouse column
//! schema into `RowBinary` wire bytes. [`DynamicRow::encode`] returns exactly
//! what crosses the wire, so every column's encoding is testable at the byte
//! level with no server.
//!
//! # Coercions
//!
//! This encoder folds in the coercions that ClickHouse's `JSONEachRow` path
//! cannot do server-side: epoch magnitude detection (ms/us/ns) and ISO-8601
//! 'T'-separator handling for date/time types, hyphen-less UUID hex, and
//! integer-to-dotted IPv4. All timestamps are treated as UTC; non-zero
//! timezone offsets on datetime strings are rejected rather than silently
//! dropped.

use vstd::prelude::*;
use vstd::string::*;

use crate::dynamic::answers::{Answers, AnswersView};
use crate::dynamic::error::{enc_err, refusal, DynamicError, DynamicErrorView};
use crate::dynamic::identifiers::{
    encode_ipv4, encode_ipv6, encode_uuid, ipv4_bytes, ipv6_bytes, uuid_bytes,
};
use crate::dynamic::parsed_type::{byte_size, parsed_type, Parsed, ParsedType, TypeTag};
use crate::dynamic::scalars::{
    as_bool, as_float, as_i128, as_i64, as_u128, as_u64, bool_of, decimal_backing_i128, decimal_of,
    enum_discriminant, enum_of, float_of, signed_of, unsigned_of, wide_signed_of, wide_unsigned_of,
};
use crate::dynamic::time::{
    datetime64_to_ticks, days_of, seconds_of, ticks_of, to_epoch_days, to_epoch_seconds,
};
use crate::dynamic::value::{
    compact, entries, jsons, lemma_entries, lemma_jsons, member, plain_text, push_compact,
    value_to_str, Json, NumberView, Value,
};
use crate::native::encode::zeros;
use crate::native::io::{
    law_le_round_trip, law_twos_round_trip, le_bytes, le_nat, lemma_pow256, pattern, pattern_of,
    pow256, push_all, push_le, push_string, push_var_uint, string, twos, var_uint,
};
use crate::text::same_text;

verus! {

// ---------------------------------------------------------------------------
// Scalars
// ---------------------------------------------------------------------------

/// The low `width` bytes of an integer in two's complement.
pub open spec fn signed_le(i: int, width: nat) -> Seq<u8> {
    le_bytes(pattern(i, 16), width)
}

/// An unsigned integer over 32 bytes.
pub open spec fn unsigned_256(u: nat) -> Seq<u8> {
    le_bytes(u, 16) + zeros(16)
}

/// A signed integer over 32 bytes, its sign carried on.
pub open spec fn signed_256(i: int) -> Seq<u8> {
    signed_le(i, 16) + Seq::new(
        16,
        |k: int|
            if i < 0 {
                0xffu8
            } else {
                0u8
            },
    )
}

/// The `width` bytes of a number that fits in them.
pub open spec fn sized_signed(n: Result<int, DynamicErrorView>, width: nat) -> Result<
    Seq<u8>,
    DynamicErrorView,
> {
    match n {
        Ok(i) => Ok(signed_le(i, width)),
        Err(e) => Err(e),
    }
}

/// A natural number as an integer.
pub open spec fn natural(n: Result<nat, DynamicErrorView>) -> Result<int, DynamicErrorView> {
    match n {
        Ok(u) => Ok(u as int),
        Err(e) => Err(e),
    }
}

/// The `width` bytes of a number within `lo..=hi`; `message` where it is not.
pub open spec fn ranged(
    n: Result<int, DynamicErrorView>,
    lo: int,
    hi: int,
    width: nat,
    col: Seq<char>,
    message: Seq<char>,
) -> Result<Seq<u8>, DynamicErrorView> {
    match n {
        Ok(i) => if lo <= i <= hi {
            Ok(signed_le(i, width))
        } else {
            Err(refusal(col, message))
        },
        Err(e) => Err(e),
    }
}

/// The wire form of an integer or a boolean; `None` for the other types.
pub open spec fn integer_bytes(v: Json, tag: TypeTag, col: Seq<char>) -> Option<
    Result<Seq<u8>, DynamicErrorView>,
> {
    match tag {
        TypeTag::Bool => Some(
            match bool_of(v, col) {
                Ok(b) => Ok(
                    seq![
                        if b {
                            1u8
                        } else {
                            0u8
                        },
                    ],
                ),
                Err(e) => Err(e),
            },
        ),
        TypeTag::UInt8 => Some(
            ranged(
                natural(unsigned_of(v, col)),
                0,
                u8::MAX as int,
                1,
                col,
                "UInt8 value out of range"@,
            ),
        ),
        TypeTag::UInt16 => Some(
            ranged(
                natural(unsigned_of(v, col)),
                0,
                u16::MAX as int,
                2,
                col,
                "UInt16 value out of range"@,
            ),
        ),
        TypeTag::UInt32 => Some(
            ranged(
                natural(unsigned_of(v, col)),
                0,
                u32::MAX as int,
                4,
                col,
                "UInt32 value out of range"@,
            ),
        ),
        TypeTag::UInt64 => Some(sized_signed(natural(unsigned_of(v, col)), 8)),
        TypeTag::UInt128 => Some(sized_signed(natural(wide_unsigned_of(v, col)), 16)),
        TypeTag::UInt256 => Some(
            match wide_unsigned_of(v, col) {
                Ok(u) => Ok(unsigned_256(u)),
                Err(e) => Err(e),
            },
        ),
        TypeTag::Int8 => Some(
            ranged(
                signed_of(v, col),
                i8::MIN as int,
                i8::MAX as int,
                1,
                col,
                "Int8 value out of range"@,
            ),
        ),
        TypeTag::Int16 => Some(
            ranged(
                signed_of(v, col),
                i16::MIN as int,
                i16::MAX as int,
                2,
                col,
                "Int16 value out of range"@,
            ),
        ),
        TypeTag::Int32 => Some(
            ranged(
                signed_of(v, col),
                i32::MIN as int,
                i32::MAX as int,
                4,
                col,
                "Int32 value out of range"@,
            ),
        ),
        TypeTag::Int64 => Some(sized_signed(signed_of(v, col), 8)),
        TypeTag::Int128 => Some(sized_signed(wide_signed_of(v, col), 16)),
        TypeTag::Int256 => Some(
            match wide_signed_of(v, col) {
                Ok(i) => Ok(signed_256(i)),
                Err(e) => Err(e),
            },
        ),
        _ => None,
    }
}

/// The value of an option, or another.
pub open spec fn or_else(n: Option<u8>, other: u8) -> u8 {
    match n {
        Some(x) => x,
        None => other,
    }
}

/// The wire form of an enum, a date, a time, a decimal or a float; `None` for
/// the other types.
pub open spec fn number_bytes(
    v: Json,
    tag: TypeTag,
    t: Parsed,
    col: Seq<char>,
    a: AnswersView,
) -> Option<Result<Seq<u8>, DynamicErrorView>> {
    let scale = or_else(t.scale, 0);
    match tag {
        TypeTag::Enum8 => Some(
            ranged(
                enum_of(v, t.raw, col),
                i8::MIN as int,
                i8::MAX as int,
                1,
                col,
                "Enum8 value out of range"@,
            ),
        ),
        TypeTag::Enum16 => Some(
            ranged(
                enum_of(v, t.raw, col),
                i16::MIN as int,
                i16::MAX as int,
                2,
                col,
                "Enum16 value out of range"@,
            ),
        ),
        TypeTag::Float32 => Some(
            match float_of(v, col, a) {
                Ok(f) => if f.is_past_single() {
                    Err(refusal(col, "Float32 overflow"@))
                } else {
                    Ok(le_bytes(f.single as nat, 4))
                },
                Err(e) => Err(e),
            },
        ),
        TypeTag::Float64 => Some(
            match float_of(v, col, a) {
                Ok(f) => Ok(le_bytes(f.bits as nat, 8)),
                Err(e) => Err(e),
            },
        ),
        // Date is UInt16 days since 1970-01-01.
        TypeTag::Date => Some(
            ranged(
                days_of(v, col),
                0,
                u16::MAX as int,
                2,
                col,
                "Date out of range for UInt16 days"@,
            ),
        ),
        // Date32 is Int32 days since 1970-01-01 (can be negative).
        TypeTag::Date32 => Some(sized_signed(days_of(v, col), 4)),
        // DateTime is UInt32 seconds since epoch.
        TypeTag::DateTime => Some(
            ranged(
                seconds_of(v, col),
                0,
                u32::MAX as int,
                4,
                col,
                "DateTime out of range for UInt32 seconds"@,
            ),
        ),
        TypeTag::DateTime64 => Some(
            sized_signed(ticks_of(v, or_else(t.precision, 3), col), 8),
        ),
        TypeTag::Decimal32 => Some(
            ranged(
                decimal_of(v, scale, col, "Decimal32 overflow"@, a),
                i32::MIN as int,
                i32::MAX as int,
                4,
                col,
                "Decimal32 overflow"@,
            ),
        ),
        TypeTag::Decimal64 => Some(
            ranged(
                decimal_of(v, scale, col, "Decimal64 overflow"@, a),
                i64::MIN as int,
                i64::MAX as int,
                8,
                col,
                "Decimal64 overflow"@,
            ),
        ),
        TypeTag::Decimal128 => Some(
            sized_signed(decimal_of(v, scale, col, "Decimal128 overflow"@, a), 16),
        ),
        // The backing integer is one of 128 bits, its sign carried on.
        TypeTag::Decimal256 => Some(
            match decimal_of(v, scale, col, "Decimal256 overflow"@, a) {
                Ok(i) => Ok(signed_256(i)),
                Err(e) => Err(e),
            },
        ),
        _ => None,
    }
}

/// `n` bytes: `b` cut short, or filled up with zeros.
pub open spec fn fitted(b: Seq<u8>, n: nat) -> Seq<u8> {
    if b.len() <= n {
        b + zeros((n - b.len()) as nat)
    } else {
        b.take(n as int)
    }
}

/// The JSON text that a value is written as: a string as it is, for its
/// content is the JSON, and an empty object for what is missing or empty.
pub open spec fn json_text(v: Json) -> Seq<char> {
    match v {
        Json::Null => "{}"@,
        Json::String(s) => if s.len() == 0 {
            "{}"@
        } else {
            s
        },
        _ => compact(v),
    }
}

/// The wire form of text, a UUID or an address; `None` for the other types.
pub open spec fn text_bytes(
    v: Json,
    tag: TypeTag,
    t: Parsed,
    col: Seq<char>,
    a: AnswersView,
) -> Option<Result<Seq<u8>, DynamicErrorView>> {
    match tag {
        TypeTag::String => Some(Ok(string(vstd::utf8::encode_utf8(plain_text(v))))),
        // A raw N-byte run: short values are padded with NULs, long ones
        // truncated. No length prefix.
        TypeTag::FixedString => Some(
            Ok(
                fitted(
                    vstd::utf8::encode_utf8(plain_text(v)),
                    match t.fixed_size {
                        Some(n) => n as nat,
                        None => 1,
                    },
                ),
            ),
        ),
        TypeTag::JSON => Some(Ok(string(vstd::utf8::encode_utf8(json_text(v))))),
        TypeTag::UUID => Some(uuid_bytes(v, col)),
        TypeTag::IPv4 => Some(ipv4_bytes(v, col)),
        TypeTag::IPv6 => Some(ipv6_bytes(v, col, a)),
        _ => None,
    }
}

// ---------------------------------------------------------------------------
// Values
// ---------------------------------------------------------------------------

/// The backing width of a bare `Decimal(P, S)` by precision: Decimal32 for
/// P<=9, Decimal64 for P<=18, Decimal128 for P<=38, and Decimal256 above that.
pub open spec fn decimal_tag(precision: u8) -> TypeTag {
    if precision <= 9 {
        TypeTag::Decimal32
    } else if precision <= 18 {
        TypeTag::Decimal64
    } else if precision <= 38 {
        TypeTag::Decimal128
    } else {
        TypeTag::Decimal256
    }
}

/// What a type is. A bare `Decimal(P, S)` carries no tag of its own.
pub open spec fn resolved(t: Parsed) -> TypeTag {
    if t.base == "Decimal"@ {
        decimal_tag(or_else(t.precision, 38))
    } else {
        t.tag
    }
}

/// The wire form of a missing value: an empty object for JSON, zeros for a
/// type of fixed size, and an empty string, array or map for the rest.
pub open spec fn default_bytes(t: Parsed) -> Seq<u8> {
    if t.base == "Decimal"@ {
        zeros(
            match resolved(t) {
                TypeTag::Decimal32 => 4,
                TypeTag::Decimal64 => 8,
                TypeTag::Decimal256 => 32,
                _ => 16,
            },
        )
    } else if t.tag is JSON {
        string(vstd::utf8::encode_utf8("{}"@))
    } else {
        match byte_size(t) {
            Some(n) => zeros(n as nat),
            None => seq![0u8],
        }
    }
}

/// `b` behind `head`.
pub open spec fn led(head: Seq<u8>, b: Result<Seq<u8>, DynamicErrorView>) -> Result<
    Seq<u8>,
    DynamicErrorView,
> {
    match b {
        Ok(x) => Ok(head + x),
        Err(e) => Err(e),
    }
}

/// The wire form of a value of type `t` in column `col`.
pub open spec fn value_bytes(v: Json, t: Parsed, col: Seq<char>, a: AnswersView) -> Result<
    Seq<u8>,
    DynamicErrorView,
>
    decreases t, 2nat, 0nat,
{
    // Nullable wrapper: one level only (ClickHouse forbids Nullable(Nullable)).
    if t.nullable {
        if v is Null {
            Ok(seq![1u8])
        } else {
            led(seq![0u8], typed_bytes(v, t, col, a))
        }
    } else if v is Null {
        Ok(default_bytes(t))
    } else {
        typed_bytes(v, t, col, a)
    }
}

/// The wire form of a value that is there.
pub open spec fn typed_bytes(v: Json, t: Parsed, col: Seq<char>, a: AnswersView) -> Result<
    Seq<u8>,
    DynamicErrorView,
>
    decreases t, 1nat, 0nat,
{
    let tag = resolved(t);
    if let Some(b) = integer_bytes(v, tag, col) {
        b
    } else if let Some(b) = number_bytes(v, tag, t, col, a) {
        b
    } else if let Some(b) = text_bytes(v, tag, t, col, a) {
        b
    } else if tag is Array {
        match t.array_element {
            None => Err(refusal(col, "Array without element type"@)),
            Some(x) => match v {
                Json::Array(vs) => led(var_uint(vs.len()), items_bytes(vs, *x, col, a)),
                _ => Err(refusal(col, "expected array"@)),
            },
        }
    } else if tag is Mapping {
        match t.map_types {
            None => Err(refusal(col, "Map without key/value types"@)),
            Some((_, x)) => match v {
                Json::Object(es) => led(var_uint(es.len()), entries_bytes(es, *x, col, a)),
                _ => Err(refusal(col, "expected object for Map"@)),
            },
        }
    } else {
        // Geo Point, Tuple and any type the parser left as Unknown are not
        // part of the supported surface.
        Err(DynamicErrorView::UnsupportedType { column: col, type_str: t.raw })
    }
}

/// The wire forms of the items of an array.
pub open spec fn items_bytes(vs: Seq<Json>, t: Parsed, col: Seq<char>, a: AnswersView) -> Result<
    Seq<u8>,
    DynamicErrorView,
>
    decreases t, 3nat, vs.len(),
{
    if vs.len() == 0 {
        Ok(seq![])
    } else {
        match items_bytes(vs.drop_last(), t, col, a) {
            Ok(b) => led(b, value_bytes(vs.last(), t, col, a)),
            Err(e) => Err(e),
        }
    }
}

/// The wire forms of the entries of a map. Its keys are strings.
pub open spec fn entries_bytes(
    es: Seq<(Seq<char>, Json)>,
    t: Parsed,
    col: Seq<char>,
    a: AnswersView,
) -> Result<Seq<u8>, DynamicErrorView>
    decreases t, 3nat, es.len(),
{
    if es.len() == 0 {
        Ok(seq![])
    } else {
        match entries_bytes(es.drop_last(), t, col, a) {
            Ok(b) => led(
                b + string(vstd::utf8::encode_utf8(es.last().0)),
                value_bytes(es.last().1, t, col, a),
            ),
            Err(e) => Err(e),
        }
    }
}

/// `r` appends what `s` says.
pub open spec fn appends(
    r: Result<(), DynamicError>,
    s: Result<Seq<u8>, DynamicErrorView>,
    before: Seq<u8>,
    after: Seq<u8>,
) -> bool {
    match r {
        Ok(_) => s matches Ok(b) && after == before + b,
        Err(e) => s == Err::<Seq<u8>, DynamicErrorView>(e@),
    }
}

/// Append the low `width` bytes of an integer in two's complement.
fn push_signed(buf: &mut Vec<u8>, i: i128, width: usize)
    ensures
        final(buf)@ == old(buf)@ + signed_le(i as int, width as nat),
{
    proof {
        lemma_pow256();
    }
    push_le(buf, pattern_of(i, 16), width);
}

/// Append `n` zero bytes.
fn push_zeros(buf: &mut Vec<u8>, n: usize)
    ensures
        final(buf)@ == old(buf)@ + zeros(n as nat),
{
    push_fill(buf, 0, n);
    assert(zeros(n as nat) =~= Seq::new(n as nat, |k: int| 0u8));
}

/// Append `n` times the byte `b`.
fn push_fill(buf: &mut Vec<u8>, b: u8, n: usize)
    ensures
        final(buf)@ == old(buf)@ + Seq::new(n as nat, |k: int| b),
{
    let mut i: usize = 0;
    assert(buf@ =~= old(buf)@ + Seq::new(0, |k: int| b));
    while i < n
        invariant
            i <= n,
            buf@ == old(buf)@ + Seq::new(i as nat, |k: int| b),
        decreases n - i,
    {
        buf.push(b);
        i += 1;
        assert(buf@ =~= old(buf)@ + Seq::new(i as nat, |k: int| b));
    }
}

/// Zero-extend a 128-bit unsigned value to a 32-byte little-endian 256-bit
/// integer (for `UInt256`).
fn push_unsigned_256(buf: &mut Vec<u8>, u: u128)
    ensures
        final(buf)@ == old(buf)@ + unsigned_256(u as nat),
{
    push_le(buf, u, 16);
    push_zeros(buf, 16);
    assert(buf@ =~= old(buf)@ + unsigned_256(u as nat));
}

/// Sign-extend a 128-bit signed backing value to a 32-byte little-endian
/// 256-bit integer (for `Int256` / `Decimal256`).
fn push_signed_256(buf: &mut Vec<u8>, i: i128)
    ensures
        final(buf)@ == old(buf)@ + signed_256(i as int),
{
    push_signed(buf, i, 16);
    let fill: u8 = if i < 0 {
        0xff
    } else {
        0
    };
    push_fill(buf, fill, 16);
    assert(buf@ =~= old(buf)@ + signed_256(i as int));
}

/// Append a number within `lo..=hi`.
fn push_ranged(
    buf: &mut Vec<u8>,
    i: i128,
    lo: i128,
    hi: i128,
    width: usize,
    col: &str,
    message: &str,
) -> (r: Result<(), DynamicError>)
    ensures
        appends(
            r,
            ranged(Ok(i as int), lo as int, hi as int, width as nat, col@, message@),
            old(buf)@,
            final(buf)@,
        ),
{
    if lo <= i && i <= hi {
        push_signed(buf, i, width);
        Ok(())
    } else {
        Err(enc_err(col, message))
    }
}

/// Append an integer or a boolean; `None` for the other types.
fn encode_integer(value: &Value, tag: TypeTag, col: &str, buf: &mut Vec<u8>) -> (r: Option<
    Result<(), DynamicError>,
>)
    ensures
        match r {
            Some(x) => integer_bytes(value@, tag, col@) matches Some(s) && appends(
                x,
                s,
                old(buf)@,
                final(buf)@,
            ),
            None => integer_bytes(value@, tag, col@) is None && final(buf)@ == old(buf)@,
        },
{
    match tag {
        TypeTag::Bool => Some(
            match as_bool(value, col) {
                Ok(b) => {
                    buf.push(
                        if b {
                            1
                        } else {
                            0
                        },
                    );
                    proof {
                        assert(buf@ =~= old(buf)@ + integer_bytes(
                            value@,
                            tag,
                            col@,
                        )->Some_0->Ok_0);
                    }
                    Ok(())
                },
                Err(e) => Err(e),
            },
        ),
        TypeTag::UInt8 => Some(
            match as_u64(value, col) {
                Ok(u) => push_ranged(
                    buf,
                    u as i128,
                    0,
                    u8::MAX as i128,
                    1,
                    col,
                    "UInt8 value out of range",
                ),
                Err(e) => Err(e),
            },
        ),
        TypeTag::UInt16 => Some(
            match as_u64(value, col) {
                Ok(u) => push_ranged(
                    buf,
                    u as i128,
                    0,
                    u16::MAX as i128,
                    2,
                    col,
                    "UInt16 value out of range",
                ),
                Err(e) => Err(e),
            },
        ),
        TypeTag::UInt32 => Some(
            match as_u64(value, col) {
                Ok(u) => push_ranged(
                    buf,
                    u as i128,
                    0,
                    u32::MAX as i128,
                    4,
                    col,
                    "UInt32 value out of range",
                ),
                Err(e) => Err(e),
            },
        ),
        TypeTag::UInt64 => Some(
            match as_u64(value, col) {
                Ok(u) => {
                    push_le(buf, u as u128, 8);
                    Ok(())
                },
                Err(e) => Err(e),
            },
        ),
        TypeTag::UInt128 => Some(
            match as_u128(value, col) {
                Ok(u) => {
                    push_le(buf, u, 16);
                    Ok(())
                },
                Err(e) => Err(e),
            },
        ),
        TypeTag::UInt256 => Some(
            match as_u128(value, col) {
                Ok(u) => {
                    push_unsigned_256(buf, u);
                    Ok(())
                },
                Err(e) => Err(e),
            },
        ),
        TypeTag::Int8 => Some(
            match as_i64(value, col) {
                Ok(i) => push_ranged(
                    buf,
                    i as i128,
                    i8::MIN as i128,
                    i8::MAX as i128,
                    1,
                    col,
                    "Int8 value out of range",
                ),
                Err(e) => Err(e),
            },
        ),
        TypeTag::Int16 => Some(
            match as_i64(value, col) {
                Ok(i) => push_ranged(
                    buf,
                    i as i128,
                    i16::MIN as i128,
                    i16::MAX as i128,
                    2,
                    col,
                    "Int16 value out of range",
                ),
                Err(e) => Err(e),
            },
        ),
        TypeTag::Int32 => Some(
            match as_i64(value, col) {
                Ok(i) => push_ranged(
                    buf,
                    i as i128,
                    i32::MIN as i128,
                    i32::MAX as i128,
                    4,
                    col,
                    "Int32 value out of range",
                ),
                Err(e) => Err(e),
            },
        ),
        TypeTag::Int64 => Some(
            match as_i64(value, col) {
                Ok(i) => {
                    push_signed(buf, i as i128, 8);
                    Ok(())
                },
                Err(e) => Err(e),
            },
        ),
        TypeTag::Int128 => Some(
            match as_i128(value, col) {
                Ok(i) => {
                    push_signed(buf, i, 16);
                    Ok(())
                },
                Err(e) => Err(e),
            },
        ),
        TypeTag::Int256 => Some(
            match as_i128(value, col) {
                Ok(i) => {
                    push_signed_256(buf, i);
                    Ok(())
                },
                Err(e) => Err(e),
            },
        ),
        _ => None,
    }
}

fn or_other(n: Option<u8>, other: u8) -> (x: u8)
    ensures
        x == or_else(n, other),
{
    match n {
        Some(x) => x,
        None => other,
    }
}

/// Append an enum, a date, a time, a decimal or a float; `None` for the other
/// types.
fn encode_number(
    value: &Value,
    tag: TypeTag,
    pt: &ParsedType,
    col: &str,
    answers: &Answers,
    buf: &mut Vec<u8>,
) -> (r: Option<Result<(), DynamicError>>)
    ensures
        match r {
            Some(x) => number_bytes(value@, tag, pt@, col@, answers@) matches Some(s) && appends(
                x,
                s,
                old(buf)@,
                final(buf)@,
            ),
            None => number_bytes(value@, tag, pt@, col@, answers@) is None && final(buf)@ == old(
                buf,
            )@,
        },
{
    let scale: u8 = or_other(pt.scale, 0);
    match tag {
        TypeTag::Enum8 => Some(
            match enum_discriminant(value, pt.raw.as_str(), col) {
                Ok(i) => push_ranged(buf, i as i128, -128, 127, 1, col, "Enum8 value out of range"),
                Err(e) => Err(e),
            },
        ),
        TypeTag::Enum16 => Some(
            match enum_discriminant(value, pt.raw.as_str(), col) {
                Ok(i) => push_ranged(buf, i as i128, -32_768, 32_767, 2, col, "Enum16 value out of range"),
                Err(e) => Err(e),
            },
        ),
        TypeTag::Float32 => Some(
            match as_float(value, col, answers) {
                Ok(f) => if f.overflows_single() {
                    Err(enc_err(col, "Float32 overflow"))
                } else {
                    push_le(buf, f.single as u128, 4);
                    Ok(())
                },
                Err(e) => Err(e),
            },
        ),
        TypeTag::Float64 => Some(
            match as_float(value, col, answers) {
                Ok(f) => {
                    push_le(buf, f.bits as u128, 8);
                    Ok(())
                },
                Err(e) => Err(e),
            },
        ),
        TypeTag::Date => Some(
            match to_epoch_days(value, col) {
                Ok(i) => push_ranged(buf, i as i128, 0, 65_535, 2, col, "Date out of range for UInt16 days"),
                Err(e) => Err(e),
            },
        ),
        TypeTag::Date32 => Some(
            match to_epoch_days(value, col) {
                Ok(i) => {
                    push_signed(buf, i as i128, 4);
                    Ok(())
                },
                Err(e) => Err(e),
            },
        ),
        TypeTag::DateTime => Some(
            match to_epoch_seconds(value, col) {
                Ok(i) => push_ranged(buf, i as i128, 0, 4_294_967_295, 4, col, "DateTime out of range for UInt32 seconds"),
                Err(e) => Err(e),
            },
        ),
        TypeTag::DateTime64 => Some(
            match datetime64_to_ticks(value, or_other(pt.precision, 3), col) {
                Ok(i) => {
                    push_signed(buf, i as i128, 8);
                    Ok(())
                },
                Err(e) => Err(e),
            },
        ),
        TypeTag::Decimal32 => Some(
            match decimal_backing_i128(value, scale, col, "Decimal32 overflow", answers) {
                Ok(i) => push_ranged(buf, i, i32::MIN as i128, i32::MAX as i128, 4, col, "Decimal32 overflow"),
                Err(e) => Err(e),
            },
        ),
        TypeTag::Decimal64 => Some(
            match decimal_backing_i128(value, scale, col, "Decimal64 overflow", answers) {
                Ok(i) => push_ranged(buf, i, i64::MIN as i128, i64::MAX as i128, 8, col, "Decimal64 overflow"),
                Err(e) => Err(e),
            },
        ),
        TypeTag::Decimal128 => Some(
            match decimal_backing_i128(value, scale, col, "Decimal128 overflow", answers) {
                Ok(i) => {
                    push_signed(buf, i, 16);
                    Ok(())
                },
                Err(e) => Err(e),
            },
        ),
        TypeTag::Decimal256 => Some(
            match decimal_backing_i128(value, scale, col, "Decimal256 overflow", answers) {
                Ok(i) => {
                    push_signed_256(buf, i);
                    Ok(())
                },
                Err(e) => Err(e),
            },
        ),
        _ => None,
    }
}

/// Append `n` bytes: `b` cut short, or filled up with zeros.
fn push_fitted(buf: &mut Vec<u8>, b: &[u8], n: usize)
    ensures
        final(buf)@ == old(buf)@ + fitted(b@, n as nat),
{
    if b.len() <= n {
        push_all(buf, b);
        push_zeros(buf, n - b.len());
        assert(buf@ =~= old(buf)@ + fitted(b@, n as nat));
    } else {
        assert(b@.subrange(0, n as int) =~= b@.take(n as int));
        push_all(buf, vstd::slice::slice_subrange(b, 0, n));
    }
}

/// The JSON text that a value is written as.
fn json_text_of(value: &Value) -> (out: String)
    ensures
        out@ == json_text(value@),
{
    match value {
        Value::Null => "{}".to_owned(),
        Value::String(s) => if s.as_str().is_empty() {
            "{}".to_owned()
        } else {
            s.clone()
        },
        _ => {
            let mut out = String::new();
            push_compact(&mut out, value);
            assert(out@ =~= compact(value@));
            out
        },
    }
}

/// Append text, a UUID or an address; `None` for the other types.
fn encode_text(
    value: &Value,
    tag: TypeTag,
    pt: &ParsedType,
    col: &str,
    answers: &Answers,
    buf: &mut Vec<u8>,
) -> (r: Option<Result<(), DynamicError>>)
    ensures
        match r {
            Some(x) => text_bytes(value@, tag, pt@, col@, answers@) matches Some(s) && appends(
                x,
                s,
                old(buf)@,
                final(buf)@,
            ),
            None => text_bytes(value@, tag, pt@, col@, answers@) is None && final(buf)@ == old(
                buf,
            )@,
        },
{
    match tag {
        TypeTag::String => {
            let text = value_to_str(value);
            push_string(buf, text.as_str().as_bytes());
            Some(Ok(()))
        },
        TypeTag::FixedString => {
            let text = value_to_str(value);
            let n: usize = match pt.fixed_size {
                Some(n) => n,
                None => 1,
            };
            push_fitted(buf, text.as_str().as_bytes(), n);
            Some(Ok(()))
        },
        TypeTag::JSON => {
            let text = json_text_of(value);
            push_string(buf, text.as_str().as_bytes());
            Some(Ok(()))
        },
        TypeTag::UUID => Some(encode_uuid(value, col, buf)),
        TypeTag::IPv4 => Some(encode_ipv4(value, col, buf)),
        TypeTag::IPv6 => Some(encode_ipv6(value, col, answers, buf)),
        _ => None,
    }
}

/// Resolve a bare `Decimal(P, S)` to its concrete backing width by precision.
fn decimal_tag_for_precision(precision: u8) -> (tag: TypeTag)
    ensures
        tag == decimal_tag(precision),
{
    if precision <= 9 {
        TypeTag::Decimal32
    } else if precision <= 18 {
        TypeTag::Decimal64
    } else if precision <= 38 {
        TypeTag::Decimal128
    } else {
        TypeTag::Decimal256
    }
}

/// Append the wire form of a missing value.
fn write_default(pt: &ParsedType, buf: &mut Vec<u8>)
    ensures
        final(buf)@ == old(buf)@ + default_bytes(pt@),
{
    // A bare `Decimal(P, S)` has no fixed byte size by base name; resolve it.
    if same_text(pt.base.as_str(), "Decimal") {
        let size: usize = match decimal_tag_for_precision(or_other(pt.precision, 38)) {
            TypeTag::Decimal32 => 4,
            TypeTag::Decimal64 => 8,
            TypeTag::Decimal256 => 32,
            _ => 16,
        };
        push_zeros(buf, size);
        return;
    }
    // JSON's no-value is the empty object: the column parser rejects empty
    // input (code 117) and JSON cannot be Nullable.
    if pt.tag == TypeTag::JSON {
        push_string(buf, "{}".as_bytes());
        return;
    }
    match pt.fixed_byte_size() {
        Some(size) => {
            push_zeros(buf, size);
        },
        None => {
            // Variable-length default: empty string / array / map.
            buf.push(0);
            assert(buf@ =~= old(buf)@ + seq![0u8]);
        },
    }
}

fn encode_value(
    value: &Value,
    pt: &ParsedType,
    col: &str,
    answers: &Answers,
    buf: &mut Vec<u8>,
) -> (r: Result<(), DynamicError>)
    ensures
        appends(r, value_bytes(value@, pt@, col@, answers@), old(buf)@, final(buf)@),
    decreases pt, 2nat,
{
    let missing = matches!(value, Value::Null);
    if pt.nullable {
        if missing {
            buf.push(1);
            assert(buf@ =~= old(buf)@ + seq![1u8]);
            return Ok(());
        }
        buf.push(0);
        let ghost before = buf@;
        let r = encode_typed(value, pt, col, answers, buf);
        proof {
            if let Ok(b) = typed_bytes(value@, pt@, col@, answers@) {
                assert(before + b =~= old(buf)@ + (seq![0u8] + b));
            }
        }
        return r;
    }
    if missing {
        write_default(pt, buf);
        return Ok(());
    }
    encode_typed(value, pt, col, answers, buf)
}

fn encode_typed(
    value: &Value,
    pt: &ParsedType,
    col: &str,
    answers: &Answers,
    buf: &mut Vec<u8>,
) -> (r: Result<(), DynamicError>)
    ensures
        appends(r, typed_bytes(value@, pt@, col@, answers@), old(buf)@, final(buf)@),
    decreases pt, 1nat,
{
    // A bare `Decimal(P, S)` carries tag Unknown; resolve it to a concrete
    // width by precision.
    let tag = if same_text(pt.base.as_str(), "Decimal") {
        decimal_tag_for_precision(or_other(pt.precision, 38))
    } else {
        pt.tag
    };
    if let Some(r) = encode_integer(value, tag, col, buf) {
        return r;
    }
    if let Some(r) = encode_number(value, tag, pt, col, answers, buf) {
        return r;
    }
    if let Some(r) = encode_text(value, tag, pt, col, answers, buf) {
        return r;
    }
    if tag == TypeTag::Array {
        return match &pt.array_element {
            Some(elem) => encode_array(value, elem, col, answers, buf),
            None => Err(enc_err(col, "Array without element type")),
        };
    }
    if tag == TypeTag::Mapping {
        return match &pt.map_types {
            Some((_, val)) => encode_map(value, val, col, answers, buf),
            None => Err(enc_err(col, "Map without key/value types")),
        };
    }
    Err(DynamicError::UnsupportedType { column: col.to_owned(), type_str: pt.raw.clone() })
}

/// The wire form of an array value.
pub open spec fn array_bytes(v: Json, t: Parsed, col: Seq<char>, a: AnswersView) -> Result<
    Seq<u8>,
    DynamicErrorView,
> {
    match v {
        Json::Array(vs) => led(var_uint(vs.len()), items_bytes(vs, t, col, a)),
        _ => Err(refusal(col, "expected array"@)),
    }
}

/// The wire form of a map value.
pub open spec fn map_bytes(v: Json, t: Parsed, col: Seq<char>, a: AnswersView) -> Result<
    Seq<u8>,
    DynamicErrorView,
> {
    match v {
        Json::Object(es) => led(var_uint(es.len()), entries_bytes(es, t, col, a)),
        _ => Err(refusal(col, "expected object for Map"@)),
    }
}

proof fn lemma_items_err(vs: Seq<Json>, t: Parsed, col: Seq<char>, a: AnswersView, k: int)
    requires
        0 <= k <= vs.len(),
        items_bytes(vs.take(k), t, col, a) is Err,
    ensures
        items_bytes(vs, t, col, a) == items_bytes(vs.take(k), t, col, a),
    decreases vs.len() - k,
{
    if k < vs.len() {
        assert(vs.take(k + 1).drop_last() =~= vs.take(k));
        lemma_items_err(vs, t, col, a, k + 1);
    } else {
        assert(vs.take(k) =~= vs);
    }
}

proof fn lemma_entries_err(
    es: Seq<(Seq<char>, Json)>,
    t: Parsed,
    col: Seq<char>,
    a: AnswersView,
    k: int,
)
    requires
        0 <= k <= es.len(),
        entries_bytes(es.take(k), t, col, a) is Err,
    ensures
        entries_bytes(es, t, col, a) == entries_bytes(es.take(k), t, col, a),
    decreases es.len() - k,
{
    if k < es.len() {
        assert(es.take(k + 1).drop_last() =~= es.take(k));
        lemma_entries_err(es, t, col, a, k + 1);
    } else {
        assert(es.take(k) =~= es);
    }
}

fn encode_array(
    value: &Value,
    elem: &ParsedType,
    col: &str,
    answers: &Answers,
    buf: &mut Vec<u8>,
) -> (r: Result<(), DynamicError>)
    ensures
        appends(r, array_bytes(value@, elem@, col@, answers@), old(buf)@, final(buf)@),
    decreases elem, 3nat,
{
    let arr = match value {
        Value::Array(a) => a,
        _ => return Err(enc_err(col, "expected array")),
    };
    let ghost all = jsons(arr@);
    proof {
        lemma_jsons(*arr);
    }
    push_var_uint(buf, arr.len() as u64);
    let ghost head = buf@;
    let mut i: usize = 0;
    proof {
        assert(all.take(0) =~= seq![]);
        assert(head =~= head + seq![]);
    }
    while i < arr.len()
        invariant
            i <= arr.len(),
            all == jsons(arr@),
            value@ == Json::Array(all),
            head == old(buf)@ + var_uint(all.len()),
            items_bytes(all.take(i as int), elem@, col@, answers@) matches Ok(b) && buf@ == head
                + b,
        decreases arr.len() - i,
    {
        let ghost before = buf@;
        proof {
            assert(all.take(i + 1).drop_last() =~= all.take(i as int));
            assert(all.take(i + 1).last() == arr@[i as int]@);
        }
        match encode_value(&arr[i], elem, col, answers, buf) {
            Ok(()) => {
                proof {
                    let b = items_bytes(all.take(i as int), elem@, col@, answers@)->Ok_0;
                    let x = value_bytes(arr@[i as int]@, elem@, col@, answers@)->Ok_0;
                    assert(before + x =~= head + (b + x));
                }
            },
            Err(e) => {
                proof {
                    lemma_items_err(all, elem@, col@, answers@, i + 1);
                }
                return Err(e);
            },
        }
        i += 1;
    }
    proof {
        assert(all.take(i as int) =~= all);
        let b = items_bytes(all, elem@, col@, answers@)->Ok_0;
        assert(buf@ =~= old(buf)@ + (var_uint(all.len()) + b));
    }
    Ok(())
}

fn encode_map(
    value: &Value,
    val: &ParsedType,
    col: &str,
    answers: &Answers,
    buf: &mut Vec<u8>,
) -> (r: Result<(), DynamicError>)
    ensures
        appends(r, map_bytes(value@, val@, col@, answers@), old(buf)@, final(buf)@),
    decreases val, 3nat,
{
    let obj = match value {
        Value::Object(m) => m,
        _ => return Err(enc_err(col, "expected object for Map")),
    };
    let ghost all = entries(obj@);
    proof {
        lemma_entries(*obj);
    }
    push_var_uint(buf, obj.len() as u64);
    let ghost head = buf@;
    let mut i: usize = 0;
    proof {
        assert(all.take(0) =~= seq![]);
        assert(head =~= head + seq![]);
    }
    while i < obj.len()
        invariant
            i <= obj.len(),
            all == entries(obj@),
            value@ == Json::Object(all),
            head == old(buf)@ + var_uint(all.len()),
            entries_bytes(all.take(i as int), val@, col@, answers@) matches Ok(b) && buf@ == head
                + b,
        decreases obj.len() - i,
    {
        let ghost before = buf@;
        proof {
            assert(all.take(i + 1).drop_last() =~= all.take(i as int));
            assert(all.take(i + 1).last() == (obj@[i as int].0@, obj@[i as int].1@));
        }
        let entry = &obj[i];
        // ClickHouse Map keys are String on this path; write the key text directly.
        push_string(buf, entry.0.as_str().as_bytes());
        match encode_value(&entry.1, val, col, answers, buf) {
            Ok(()) => {
                proof {
                    let b = entries_bytes(all.take(i as int), val@, col@, answers@)->Ok_0;
                    let k = string(vstd::utf8::encode_utf8(obj@[i as int].0@));
                    let x = value_bytes(obj@[i as int].1@, val@, col@, answers@)->Ok_0;
                    assert(before + k + x =~= head + (b + k + x));
                }
            },
            Err(e) => {
                proof {
                    lemma_entries_err(all, val@, col@, answers@, i + 1);
                }
                return Err(e);
            },
        }
        i += 1;
    }
    proof {
        assert(all.take(i as int) =~= all);
        let b = entries_bytes(all, val@, col@, answers@)->Ok_0;
        assert(buf@ =~= old(buf)@ + (var_uint(all.len()) + b));
    }
    Ok(())
}

// ---------------------------------------------------------------------------
// Rows
// ---------------------------------------------------------------------------

/// A single resolved column for a dynamic insert.
#[derive(Debug)]
pub struct ColumnDef {
    /// Column name, used to look up the value in the row map.
    pub name: String,
    /// Parsed ClickHouse type, drives wire encoding.
    pub ty: ParsedType,
    /// Canonical ClickHouse type string, declared in the Native block header
    /// so the server decodes the column as it was encoded.
    pub type_string: String,
    /// Default kind from system.columns: "", "DEFAULT", "MATERIALIZED",
    /// "ALIAS", "EPHEMERAL". Empty for columns without a server-side default.
    pub default_kind: String,
    /// True when the column has a server-side default and may be omitted from
    /// the INSERT column list (e.g. `_uuid`, `_timestamp_load`).
    pub has_default: bool,
}

/// The mathematical value of a [`ColumnDef`].
pub struct ColumnView {
    pub name: Seq<char>,
    pub ty: Parsed,
    pub type_string: Seq<char>,
    pub default_kind: Seq<char>,
    pub has_default: bool,
}

impl View for ColumnDef {
    type V = ColumnView;

    open spec fn view(&self) -> ColumnView {
        ColumnView {
            name: self.name@,
            ty: self.ty@,
            type_string: self.type_string@,
            default_kind: self.default_kind@,
            has_default: self.has_default,
        }
    }
}

/// The mathematical values of columns.
pub open spec fn column_views(columns: Seq<ColumnDef>) -> Seq<ColumnView> {
    columns.map_values(|c: ColumnDef| c@)
}

/// A column as `system.columns` describes it.
pub open spec fn described(
    name: Seq<char>,
    type_string: Seq<char>,
    default_kind: Seq<char>,
) -> ColumnView {
    ColumnView {
        name,
        ty: parsed_type(type_string),
        type_string,
        default_kind,
        has_default: default_kind.len() > 0,
    }
}

impl ColumnDef {
    /// Build a column from a name and a ClickHouse type string. The column is
    /// treated as required (no server-side default).
    ///
    /// The type string is parsed once here; `type_string` keeps the original
    /// canonical form for the insert header.
    #[must_use]
    pub fn new(name: &str, type_string: &str) -> (out: Self)
        ensures
            out@ == described(name@, type_string@, seq![]),
    {
        let default_kind = String::new();
        assert(default_kind@ =~= seq![]);
        ColumnDef {
            name: name.to_owned(),
            ty: ParsedType::parse(type_string),
            type_string: type_string.to_owned(),
            default_kind,
            has_default: false,
        }
    }

    /// Build a column carrying its `system.columns` default kind. `has_default`
    /// is set when `default_kind` is non-empty, marking the column omittable
    /// from the INSERT list.
    #[must_use]
    pub fn with_default_kind(name: &str, type_string: &str, default_kind: &str) -> (out: Self)
        ensures
            out@ == described(name@, type_string@, default_kind@),
    {
        let mut column = ColumnDef::new(name, type_string);
        column.default_kind = default_kind.to_owned();
        column.has_default = !default_kind.is_empty();
        column
    }
}

impl Clone for ColumnDef {
    fn clone(&self) -> (out: ColumnDef)
        ensures
            out@ == self@,
    {
        ColumnDef {
            name: self.name.clone(),
            ty: self.ty.clone(),
            type_string: self.type_string.clone(),
            default_kind: self.default_kind.clone(),
            has_default: self.has_default,
        }
    }
}

/// Runtime-dynamic row: a borrowed JSON object plus the resolved column
/// schema it is encoded against, with optional raw passthrough for one named
/// JSON column.
pub struct DynamicRow<'a> {
    row: &'a [(String, Value)],
    columns: &'a [ColumnDef],
    /// When set, `(column_name, raw_bytes)`: the named JSON column is written
    /// from `raw_bytes` as a length-prefixed string rather than from `row`.
    raw: Option<(&'a str, &'a [u8])>,
}

/// The mathematical value of a [`DynamicRow`].
pub struct RowView {
    pub row: Seq<(Seq<char>, Json)>,
    pub columns: Seq<ColumnView>,
    pub raw: Option<(Seq<char>, Seq<u8>)>,
}

impl<'a> View for DynamicRow<'a> {
    type V = RowView;

    closed spec fn view(&self) -> RowView {
        RowView {
            row: entries(self.row@),
            columns: column_views(self.columns@),
            raw: match self.raw {
                Some((name, bytes)) => Some((name@, bytes@)),
                None => None,
            },
        }
    }
}

/// The value of `row` under `name`, null where there is none.
pub open spec fn value_at(row: Seq<(Seq<char>, Json)>, name: Seq<char>) -> Json {
    match member(row, name) {
        Some(v) => v,
        None => Json::Null,
    }
}

/// The wire form of raw bytes for a JSON or string column: a not-null marker
/// if needed, then the bytes as a length-prefixed string.
pub open spec fn raw_bytes(bytes: Seq<u8>, nullable: bool) -> Seq<u8> {
    if nullable {
        seq![0u8] + string(bytes)
    } else {
        string(bytes)
    }
}

/// The wire form of one column of a row.
pub open spec fn column_bytes(
    row: Seq<(Seq<char>, Json)>,
    c: ColumnView,
    raw: Option<(Seq<char>, Seq<u8>)>,
    a: AnswersView,
) -> Result<Seq<u8>, DynamicErrorView> {
    match raw {
        Some((name, bytes)) if name == c.name => Ok(raw_bytes(bytes, c.ty.nullable)),
        _ => value_bytes(value_at(row, c.name), c.ty, c.name, a),
    }
}

/// The wire form of a row: its columns one behind the other.
pub open spec fn row_wire(
    row: Seq<(Seq<char>, Json)>,
    columns: Seq<ColumnView>,
    raw: Option<(Seq<char>, Seq<u8>)>,
    a: AnswersView,
) -> Result<Seq<u8>, DynamicErrorView>
    decreases columns.len(),
{
    if columns.len() == 0 {
        Ok(seq![])
    } else {
        match row_wire(row, columns.drop_last(), raw, a) {
            Ok(b) => led(b, column_bytes(row, columns.last(), raw, a)),
            Err(e) => Err(e),
        }
    }
}

proof fn lemma_row_err(
    row: Seq<(Seq<char>, Json)>,
    columns: Seq<ColumnView>,
    raw: Option<(Seq<char>, Seq<u8>)>,
    a: AnswersView,
    k: int,
)
    requires
        0 <= k <= columns.len(),
        row_wire(row, columns.take(k), raw, a) is Err,
    ensures
        row_wire(row, columns, raw, a) == row_wire(row, columns.take(k), raw, a),
    decreases columns.len() - k,
{
    if k < columns.len() {
        assert(columns.take(k + 1).drop_last() =~= columns.take(k));
        lemma_row_err(row, columns, raw, a, k + 1);
    } else {
        assert(columns.take(k) =~= columns);
    }
}

/// The first entry of `row` under `name`.
pub(crate) fn find_member<'a>(row: &'a [(String, Value)], name: &str) -> (out: Option<&'a Value>)
    ensures
        match out {
            Some(v) => member(entries(row@), name@) == Some(v@),
            None => member(entries(row@), name@) is None,
        },
{
    let ghost all = entries(row@);
    let mut i: usize = 0;
    while i < row.len()
        invariant
            i <= row.len(),
            all == entries(row@),
            member(all.take(i as int), name@) is None,
        decreases row.len() - i,
    {
        proof {
            assert(all.take(i + 1).drop_last() =~= all.take(i as int));
            assert(all.take(i + 1).last() == (row@[i as int].0@, row@[i as int].1@));
        }
        let entry = &row[i];
        if same_text(entry.0.as_str(), name) {
            proof {
                lemma_member_found(all, name@, i + 1);
            }
            return Some(&entry.1);
        }
        i += 1;
    }
    assert(all.take(i as int) =~= all);
    None
}

proof fn lemma_member_found(es: Seq<(Seq<char>, Json)>, name: Seq<char>, k: int)
    requires
        0 <= k <= es.len(),
        member(es.take(k), name) is Some,
    ensures
        member(es, name) == member(es.take(k), name),
    decreases es.len() - k,
{
    if k < es.len() {
        assert(es.take(k + 1).drop_last() =~= es.take(k));
        lemma_member_found(es, name, k + 1);
    } else {
        assert(es.take(k) =~= es);
    }
}

impl<'a> DynamicRow<'a> {
    /// Encode a row, taking each column's value from `row` by name.
    #[must_use]
    pub fn new(row: &'a [(String, Value)], columns: &'a [ColumnDef]) -> (out: Self)
        ensures
            out@ == (RowView {
                row: entries(row@),
                columns: column_views(columns@),
                raw: None,
            }),
    {
        DynamicRow { row, columns, raw: None }
    }

    /// Same as [`DynamicRow::new`], but the named JSON column (e.g. `_json`)
    /// is written from `raw` bytes -- a zero-copy passthrough of the original
    /// payload as a JSON string -- instead of from `row`.
    #[must_use]
    pub fn with_raw(
        row: &'a [(String, Value)],
        columns: &'a [ColumnDef],
        raw: &'a [u8],
        json_col: &'a str,
    ) -> (out: Self)
        ensures
            out@ == (RowView {
                row: entries(row@),
                columns: column_views(columns@),
                raw: Some((json_col@, raw@)),
            }),
    {
        DynamicRow { row, columns, raw: Some((json_col, raw)) }
    }

    /// Encode this row to `RowBinary` wire bytes.
    ///
    /// # Errors
    ///
    /// Returns [`DynamicError`] if any column value cannot be encoded for its
    /// target type, and [`DynamicError::AnswerNeeded`] where that takes an
    /// answer that `answers` does not hold.
    pub fn encode(&self, answers: &Answers) -> (r: Result<Vec<u8>, DynamicError>)
        ensures
            match r {
                Ok(buf) => row_wire(self@.row, self@.columns, self@.raw, answers@) == Ok::<
                    Seq<u8>,
                    DynamicErrorView,
                >(buf@),
                Err(e) => row_wire(self@.row, self@.columns, self@.raw, answers@) == Err::<
                    Seq<u8>,
                    DynamicErrorView,
                >(e@),
            },
    {
        let mut buf: Vec<u8> = Vec::new();
        let mut i: usize = 0;
        let ghost all = self@.columns;
        assert(buf@ =~= seq![]);
        while i < self.columns.len()
            invariant
                i <= self.columns.len(),
                all == self@.columns,
                all == column_views(self.columns@),
                row_wire(self@.row, all.take(i as int), self@.raw, answers@) == Ok::<
                    Seq<u8>,
                    DynamicErrorView,
                >(buf@),
            decreases self.columns.len() - i,
        {
            proof {
                assert(all.take(i + 1).drop_last() =~= all.take(i as int));
                assert(all.take(i + 1).last() == self.columns@[i as int]@);
            }
            match self.encode_column(&self.columns[i], answers, &mut buf) {
                Ok(()) => {},
                Err(e) => {
                    proof {
                        lemma_row_err(self@.row, all, self@.raw, answers@, i + 1);
                    }
                    return Err(e);
                },
            }
            i += 1;
        }
        assert(all.take(i as int) =~= all);
        Ok(buf)
    }

    /// Encode a single column's value to `RowBinary`, appending to `buf`.
    ///
    /// Honours the raw `_json` passthrough for the named JSON column.
    fn encode_column(&self, col: &ColumnDef, answers: &Answers, buf: &mut Vec<u8>) -> (r: Result<
        (),
        DynamicError,
    >)
        ensures
            appends(
                r,
                column_bytes(self@.row, col@, self@.raw, answers@),
                old(buf)@,
                final(buf)@,
            ),
    {
        if let Some((name, bytes)) = self.raw {
            if same_text(name, col.name.as_str()) {
                // Raw passthrough for a JSON/String column: Nullable not-null
                // marker if needed, then the bytes as a length-prefixed string.
                if col.ty.nullable {
                    buf.push(0);
                }
                push_string(buf, bytes);
                assert(buf@ =~= old(buf)@ + raw_bytes(bytes@, col.ty.nullable));
                return Ok(());
            }
        }
        match find_member(self.row, col.name.as_str()) {
            Some(value) => encode_value(value, &col.ty, col.name.as_str(), answers, buf),
            None => encode_value(&Value::Null, &col.ty, col.name.as_str(), answers, buf),
        }
    }
}

// ---------------------------------------------------------------------------
// Laws
// ---------------------------------------------------------------------------

/// A JSON column written from raw bytes is what the same bytes give as a JSON
/// string in the row.
pub proof fn law_raw_matches_value(
    row: Seq<(Seq<char>, Json)>,
    c: ColumnView,
    payload: Seq<char>,
    a: AnswersView,
)
    requires
        c.ty.base != "Decimal"@,
        c.ty.tag is JSON,
        payload.len() > 0,
        member(row, c.name) == Some(Json::String(payload)),
    ensures
        column_bytes(row, c, Some((c.name, vstd::utf8::encode_utf8(payload))), a) == column_bytes(
            row,
            c,
            None,
            a,
        ),
{
    let v = Json::String(payload);
    assert(json_text(v) == payload);
    assert(typed_bytes(v, c.ty, c.name, a) == Ok::<Seq<u8>, DynamicErrorView>(
        string(vstd::utf8::encode_utf8(payload)),
    ));
}

/// A column that the row does not hold is encoded as one that it holds as
/// null.
pub proof fn law_missing_is_null(
    row: Seq<(Seq<char>, Json)>,
    other: Seq<(Seq<char>, Json)>,
    c: ColumnView,
    a: AnswersView,
)
    requires
        member(row, c.name) is None,
        member(other, c.name) == Some(Json::Null),
    ensures
        column_bytes(row, c, None, a) == column_bytes(other, c, None, a),
{
}

/// The columns of a row stand in the order in which they are declared: the wire
/// form over two lists of columns is that over the first, then that over the
/// second.
pub proof fn law_columns_in_order(
    row: Seq<(Seq<char>, Json)>,
    first: Seq<ColumnView>,
    second: Seq<ColumnView>,
    raw: Option<(Seq<char>, Seq<u8>)>,
    a: AnswersView,
)
    ensures
        row_wire(row, first + second, raw, a) == match row_wire(row, first, raw, a) {
            Ok(b) => led(b, row_wire(row, second, raw, a)),
            Err(e) => Err(e),
        },
    decreases second.len(),
{
    if second.len() == 0 {
        assert(first + second =~= first);
        if let Ok(b) = row_wire(row, first, raw, a) {
            assert(b + Seq::<u8>::empty() =~= b);
        }
    } else {
        let before = second.drop_last();
        law_columns_in_order(row, first, before, raw, a);
        assert((first + second).drop_last() =~= first + before);
        assert((first + second).last() == second.last());
        if let (Ok(b), Ok(x), Ok(y)) = (
            row_wire(row, first, raw, a),
            row_wire(row, before, raw, a),
            column_bytes(row, second.last(), raw, a),
        ) {
            assert(b + x + y =~= b + (x + y));
        }
    }
}

/// How many bytes an integer type has, and the range of its values.
pub open spec fn integer_range(tag: TypeTag) -> Option<(nat, int, int)> {
    match tag {
        TypeTag::UInt8 => Some((1, 0, u8::MAX as int)),
        TypeTag::UInt16 => Some((2, 0, u16::MAX as int)),
        TypeTag::UInt32 => Some((4, 0, u32::MAX as int)),
        TypeTag::UInt64 => Some((8, 0, u64::MAX as int)),
        TypeTag::Int8 => Some((1, i8::MIN as int, i8::MAX as int)),
        TypeTag::Int16 => Some((2, i16::MIN as int, i16::MAX as int)),
        TypeTag::Int32 => Some((4, i32::MIN as int, i32::MAX as int)),
        TypeTag::Int64 => Some((8, i64::MIN as int, i64::MAX as int)),
        _ => None,
    }
}

/// The low bytes of a number do not depend on what stands above them.
proof fn lemma_le_bytes_low(n: nat, k: nat, width: nat)
    ensures
        le_bytes(n + k * pow256(width), width) == le_bytes(n, width),
    decreases width,
{
    if width > 0 {
        let m = (width - 1) as nat;
        let p = pow256(m);
        let q = k * p;
        assert(pow256(width) == 256 * p);
        assert(k * (256 * p) == 256 * q) by (nonlinear_arith)
            requires
                q == k * p,
        ;
        let x = n + k * pow256(width);
        assert(x == n + 256 * q);
        assert(x % 256 == n % 256);
        assert(x / 256 == n / 256 + q);
        lemma_le_bytes_low(n / 256, k, m);
    }
}

/// The low bytes of a wider pattern are the bytes of the narrow one.
pub proof fn lemma_low_bytes(i: int, width: nat)
    requires
        width == 1 || width == 2 || width == 4 || width == 8,
        -pow256(width) <= i,
    ensures
        signed_le(i, width) == le_bytes(pattern(i, width), width),
{
    lemma_pow256();
    if i < 0 {
        let k: nat = if width == 1 {
            0xff_ffff_ffff_ffff_ffff_ffff_ffff_ffff
        } else if width == 2 {
            0xffff_ffff_ffff_ffff_ffff_ffff_ffff
        } else if width == 4 {
            0xffff_ffff_ffff_ffff_ffff_ffff
        } else {
            0xffff_ffff_ffff_ffff
        };
        assert(pow256(16) == pow256(width) + k * pow256(width));
        lemma_le_bytes_low(pattern(i, width), k, width);
    }
}

/// A whole number is written exactly or not at all: where it is in the range of
/// the integer type its bytes stand for it, and elsewhere it is refused.
pub proof fn law_integers_are_exact(n: NumberView, i: int, tag: TypeTag, col: Seq<char>)
    requires
        integer_range(tag) is Some,
        i64::MIN <= i <= u64::MAX,
        n.unsigned == (if i >= 0 {
            Some(i as u64)
        } else {
            None
        }),
        n.signed == (if i <= i64::MAX {
            Some(i as i64)
        } else {
            None
        }),
    ensures
        ({
            let (width, lo, hi) = integer_range(tag)->Some_0;
            match integer_bytes(Json::Number(n), tag, col) {
                Some(Ok(b)) => lo <= i <= hi && b.len() == width && i == if lo < 0 {
                    twos(le_nat(b), width)
                } else {
                    le_nat(b) as int
                },
                Some(Err(_)) => !(lo <= i <= hi),
                None => false,
            }
        }),
{
    let (width, lo, hi) = integer_range(tag)->Some_0;
    lemma_pow256();
    if lo <= i <= hi {
        lemma_low_bytes(i, width);
        law_le_round_trip(pattern(i, width), width);
        law_twos_round_trip(
            if lo < 0 {
                i
            } else {
                0
            },
            width,
        );
    }
}

} // verus!
