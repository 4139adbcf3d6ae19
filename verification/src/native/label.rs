//! The debug text of a column type, as error messages show it.

use vstd::prelude::*;
use vstd::string::*;

use crate::native::columns::{lemma_tys, tys, ColumnType, Ty};
use crate::text::{decimal, push_decimal};

verus! {

/// The debug form of a text: quoted, with special characters escaped.
pub uninterp spec fn quoted_text(s: Seq<char>) -> Seq<char>;

/// `str`'s `Debug` formatting, whose result is a function of the text.
#[verifier::external_body]
fn quoted(s: &str) -> (out: String)
    ensures
        out@ == quoted_text(s@),
{
    format!("{s:?}")
}

/// The debug text of a decimal type.
pub open spec fn decimal_text(name: Seq<char>, precision: u8, scale: u8) -> Seq<char> {
    name + " { precision: "@ + decimal(precision as nat) + ", scale: "@ + decimal(scale as nat)
        + " }"@
}

/// The debug text of an optional time zone.
pub open spec fn zone_text(zone: Option<Seq<char>>) -> Seq<char> {
    match zone {
        Some(z) => "Some("@ + quoted_text(z) + ")"@,
        None => "None"@,
    }
}

/// The debug text of a type.
pub open spec fn debug_text(t: Ty) -> Seq<char>
    decreases t,
{
    match t {
        Ty::UInt8 => "UInt8"@,
        Ty::UInt16 => "UInt16"@,
        Ty::UInt32 => "UInt32"@,
        Ty::UInt64 => "UInt64"@,
        Ty::Int8 => "Int8"@,
        Ty::Int16 => "Int16"@,
        Ty::Int32 => "Int32"@,
        Ty::Int64 => "Int64"@,
        Ty::Int128 => "Int128"@,
        Ty::UInt128 => "UInt128"@,
        Ty::Int256 => "Int256"@,
        Ty::UInt256 => "UInt256"@,
        Ty::Float32 => "Float32"@,
        Ty::Float64 => "Float64"@,
        Ty::BFloat16 => "BFloat16"@,
        Ty::Decimal32 { precision, scale } => decimal_text("Decimal32"@, precision, scale),
        Ty::Decimal64 { precision, scale } => decimal_text("Decimal64"@, precision, scale),
        Ty::Decimal128 { precision, scale } => decimal_text("Decimal128"@, precision, scale),
        Ty::Decimal256 { precision, scale } => decimal_text("Decimal256"@, precision, scale),
        Ty::String => "String"@,
        Ty::FixedString(n) => "FixedString("@ + decimal(n as nat) + ")"@,
        Ty::Uuid => "Uuid"@,
        Ty::IPv4 => "IPv4"@,
        Ty::IPv6 => "IPv6"@,
        Ty::Date => "Date"@,
        Ty::Date32 => "Date32"@,
        Ty::DateTime => "DateTime"@,
        Ty::DateTime64 { precision, timezone } => "DateTime64 { precision: "@ + decimal(
            precision as nat,
        ) + ", timezone: "@ + zone_text(timezone) + " }"@,
        Ty::Time => "Time"@,
        Ty::Time64 => "Time64"@,
        Ty::Nullable(x) => "Nullable("@ + debug_text(*x) + ")"@,
        Ty::LowCardinality(x) => "LowCardinality("@ + debug_text(*x) + ")"@,
        Ty::Enum8 => "Enum8"@,
        Ty::Enum16 => "Enum16"@,
        Ty::SimpleAggregateFunction(x) => "SimpleAggregateFunction("@ + debug_text(*x) + ")"@,
        Ty::Array(x) => "Array("@ + debug_text(*x) + ")"@,
        Ty::Tuple(xs) => "Tuple(["@ + list_text(xs) + "])"@,
        Ty::Mapping(k, v) => "Map("@ + debug_text(*k) + ", "@ + debug_text(*v) + ")"@,
        Ty::Json => "Json"@,
        Ty::Point => "Point"@,
        Ty::Variant(xs) => "Variant(["@ + list_text(xs) + "])"@,
        Ty::NewJson => "NewJson"@,
        Ty::Dynamic => "Dynamic"@,
    }
}

/// The debug texts of `ts`, with commas between them.
pub open spec fn list_text(ts: Seq<Ty>) -> Seq<char>
    decreases ts,
{
    if ts.len() == 0 {
        seq![]
    } else {
        let before = list_text(ts.subrange(0, ts.len() - 1));
        if ts.len() == 1 {
            debug_text(ts[ts.len() - 1])
        } else {
            before + ", "@ + debug_text(ts[ts.len() - 1])
        }
    }
}

fn push_decimal_type(out: &mut String, name: &str, precision: u8, scale: u8)
    ensures
        final(out)@ == old(out)@ + decimal_text(name@, precision, scale),
{
    out.append(name);
    out.append(" { precision: ");
    push_decimal(out, precision as u128);
    out.append(", scale: ");
    push_decimal(out, scale as u128);
    out.append(" }");
    assert(out@ =~= old(out)@ + decimal_text(name@, precision, scale));
}

fn push_wrapped(out: &mut String, name: &str, inner: &ColumnType)
    ensures
        final(out)@ == old(out)@ + (name@ + debug_text(inner@) + ")"@),
    decreases inner, 1nat,
{
    out.append(name);
    push_debug_text(out, inner);
    out.append(")");
    assert(out@ =~= old(out)@ + (name@ + debug_text(inner@) + ")"@));
}

fn push_list(out: &mut String, ts: &Vec<ColumnType>)
    ensures
        final(out)@ == old(out)@ + list_text(tys(ts@)),
    decreases ts, 0nat,
{
    let mut i: usize = 0;
    let ghost all = tys(ts@);
    assert(out@ =~= old(out)@ + list_text(all.subrange(0, 0)));
    while i < ts.len()
        invariant
            i <= ts.len(),
            all == tys(ts@),
            out@ == old(out)@ + list_text(all.subrange(0, i as int)),
        decreases ts.len() - i,
    {
        proof {
            assert(all.subrange(0, i + 1).subrange(0, i as int) =~= all.subrange(0, i as int));
        }
        if i > 0 {
            out.append(", ");
        }
        push_debug_text(out, &ts[i]);
        i = i + 1;
        assert(out@ =~= old(out)@ + list_text(all.subrange(0, i as int)));
    }
    assert(all.subrange(0, i as int) =~= all);
}

/// Append the debug text of `t`.
pub fn push_debug_text(out: &mut String, t: &ColumnType)
    ensures
        final(out)@ == old(out)@ + debug_text(t@),
    decreases t, 0nat,
{
    match t {
        ColumnType::UInt8 => out.append("UInt8"),
        ColumnType::UInt16 => out.append("UInt16"),
        ColumnType::UInt32 => out.append("UInt32"),
        ColumnType::UInt64 => out.append("UInt64"),
        ColumnType::Int8 => out.append("Int8"),
        ColumnType::Int16 => out.append("Int16"),
        ColumnType::Int32 => out.append("Int32"),
        ColumnType::Int64 => out.append("Int64"),
        ColumnType::Int128 => out.append("Int128"),
        ColumnType::UInt128 => out.append("UInt128"),
        ColumnType::Int256 => out.append("Int256"),
        ColumnType::UInt256 => out.append("UInt256"),
        ColumnType::Float32 => out.append("Float32"),
        ColumnType::Float64 => out.append("Float64"),
        ColumnType::BFloat16 => out.append("BFloat16"),
        ColumnType::Decimal32 { precision, scale } => push_decimal_type(
            out,
            "Decimal32",
            *precision,
            *scale,
        ),
        ColumnType::Decimal64 { precision, scale } => push_decimal_type(
            out,
            "Decimal64",
            *precision,
            *scale,
        ),
        ColumnType::Decimal128 { precision, scale } => push_decimal_type(
            out,
            "Decimal128",
            *precision,
            *scale,
        ),
        ColumnType::Decimal256 { precision, scale } => push_decimal_type(
            out,
            "Decimal256",
            *precision,
            *scale,
        ),
        ColumnType::String => out.append("String"),
        ColumnType::FixedString(n) => {
            out.append("FixedString(");
            push_decimal(out, *n as u128);
            out.append(")");
            assert(out@ =~= old(out)@ + debug_text(t@));
        },
        ColumnType::Uuid => out.append("Uuid"),
        ColumnType::IPv4 => out.append("IPv4"),
        ColumnType::IPv6 => out.append("IPv6"),
        ColumnType::Date => out.append("Date"),
        ColumnType::Date32 => out.append("Date32"),
        ColumnType::DateTime => out.append("DateTime"),
        ColumnType::DateTime64 { precision, timezone } => {
            out.append("DateTime64 { precision: ");
            push_decimal(out, *precision as u128);
            out.append(", timezone: ");
            match timezone {
                Some(z) => {
                    out.append("Some(");
                    let shown = quoted(z.as_str());
                    out.append(shown.as_str());
                    out.append(")");
                },
                None => {
                    out.append("None");
                },
            }
            out.append(" }");
            assert(out@ =~= old(out)@ + debug_text(t@));
        },
        ColumnType::Time => out.append("Time"),
        ColumnType::Time64 => out.append("Time64"),
        ColumnType::Nullable(x) => push_wrapped(out, "Nullable(", x),
        ColumnType::LowCardinality(x) => push_wrapped(out, "LowCardinality(", x),
        ColumnType::Enum8 => out.append("Enum8"),
        ColumnType::Enum16 => out.append("Enum16"),
        ColumnType::SimpleAggregateFunction(x) => push_wrapped(
            out,
            "SimpleAggregateFunction(",
            x,
        ),
        ColumnType::Array(x) => push_wrapped(out, "Array(", x),
        ColumnType::Tuple(xs) => {
            proof {
                lemma_tys(*xs);
            }
            out.append("Tuple([");
            push_list(out, xs);
            out.append("])");
            assert(out@ =~= old(out)@ + debug_text(t@));
        },
        ColumnType::Mapping(k, v) => {
            out.append("Map(");
            push_debug_text(out, k);
            out.append(", ");
            push_debug_text(out, v);
            out.append(")");
            assert(out@ =~= old(out)@ + debug_text(t@));
        },
        ColumnType::Json => out.append("Json"),
        ColumnType::Point => out.append("Point"),
        ColumnType::Variant(xs) => {
            proof {
                lemma_tys(*xs);
            }
            out.append("Variant([");
            push_list(out, xs);
            out.append("])");
            assert(out@ =~= old(out)@ + debug_text(t@));
        },
        ColumnType::NewJson => out.append("NewJson"),
        ColumnType::Dynamic => out.append("Dynamic"),
    }
}

} // verus!
