//! Rendering of `RowBinary` cells as JSON text.
//!
//! `Variant`, `Dynamic` and `JSON` columns are handed out as one JSON document
//! per row; this is what turns a typed cell into its part of the document.

use vstd::prelude::*;

use crate::error::{Error, ErrorView};
use crate::native::address::{hex_digit, hex_digit_of, ipv6_text, push_ipv6, push_quad, quad};
use crate::native::columns::{lemma_tys, tys, ColumnType, Ty};
use crate::native::io::{
    le_nat, le_number, lemma_pow256, push_all, signed128, signed16, signed32, signed64, signed8,
    twos, var_uint_at, var_uint_from,
};
use crate::native::quote::{push_quoted, quoted_bytes};
use crate::native::texts::{lookup_text, CellKey, CellTexts};
use crate::text::{decimal_bytes, push_decimal_bytes, signed_bytes};

verus! {

/// Why a cell has no rendering.
#[derive(Debug, Clone, Copy, PartialEq, Eq, Structural)]
pub enum Gap {
    /// The cell ends before its value does.
    Short,
    /// The text of a number has not been supplied.
    Text(CellKey),
}

/// The outcome of rendering one value at a position: its text and the position
/// behind the value.
pub type Shown = Result<(Seq<u8>, int), Gap>;

/// The text of an absent value.
pub open spec fn null_text() -> Seq<u8> {
    seq![110u8, 117u8, 108u8, 108u8]
}

fn push_null(out: &mut Vec<u8>)
    ensures
        final(out)@ == old(out)@ + null_text(),
{
    push_all(out, &[110, 117, 108, 108]);
    assert(out@ =~= old(out)@ + null_text());
}

// ---------------------------------------------------------------------------
// Scalars
// ---------------------------------------------------------------------------

/// The unsigned number of `width` bytes at `pos`.
pub open spec fn unsigned_at(d: Seq<u8>, pos: int, width: nat) -> Shown {
    if pos + width <= d.len() {
        Ok((decimal_bytes(le_nat(d.subrange(pos, pos + width))), pos + width))
    } else {
        Err(Gap::Short)
    }
}

/// The signed number of `width` bytes at `pos`.
pub open spec fn signed_at(d: Seq<u8>, pos: int, width: nat) -> Shown {
    if pos + width <= d.len() {
        Ok((signed_bytes(twos(le_nat(d.subrange(pos, pos + width)), width)), pos + width))
    } else {
        Err(Gap::Short)
    }
}

/// The hex digits of the bytes of `b`, last byte first.
pub open spec fn reversed_hex(b: Seq<u8>) -> Seq<u8>
    decreases b.len(),
{
    if b.len() == 0 {
        seq![]
    } else {
        reversed_hex(b.drop_first()) + seq![
            hex_digit((b[0] / 16) as nat),
            hex_digit((b[0] % 16) as nat),
        ]
    }
}

/// A 32-byte big integer has no JSON number form, so it renders as hex.
pub open spec fn wide_at(d: Seq<u8>, pos: int) -> Shown {
    if pos + 32 <= d.len() {
        Ok((seq![34u8] + reversed_hex(d.subrange(pos, pos + 32)) + seq![34u8], pos + 32))
    } else {
        Err(Gap::Short)
    }
}

/// Two little-endian halves, most significant first, as a hyphenated UUID.
pub open spec fn uuid_text(b: Seq<u8>) -> Seq<u8> {
    let digits = reversed_hex(b.subrange(0, 8)) + reversed_hex(b.subrange(8, 16));
    digits.subrange(0, 8) + seq![45u8] + digits.subrange(8, 12) + seq![45u8] + digits.subrange(
        12,
        16,
    ) + seq![45u8] + digits.subrange(16, 20) + seq![45u8] + digits.subrange(20, 32)
}

/// The UUID at `pos`.
pub open spec fn uuid_at(d: Seq<u8>, pos: int) -> Shown {
    if pos + 16 <= d.len() {
        Ok((seq![34u8] + uuid_text(d.subrange(pos, pos + 16)) + seq![34u8], pos + 16))
    } else {
        Err(Gap::Short)
    }
}

/// The IPv4 address at `pos`, a little-endian number in dotted-quad form.
pub open spec fn ipv4_at(d: Seq<u8>, pos: int) -> Shown {
    if pos + 4 <= d.len() {
        Ok(
            (
                seq![34u8] + quad(d[pos + 3], d[pos + 2], d[pos + 1], d[pos]) + seq![34u8],
                pos + 4,
            ),
        )
    } else {
        Err(Gap::Short)
    }
}

/// The IPv6 address at `pos`.
pub open spec fn ipv6_at(d: Seq<u8>, pos: int) -> Shown {
    if pos + 16 <= d.len() {
        Ok((seq![34u8] + ipv6_text(d.subrange(pos, pos + 16)) + seq![34u8], pos + 16))
    } else {
        Err(Gap::Short)
    }
}

/// Whether the bits are those of a NaN or an infinity.
pub open spec fn has_no_number(key: CellKey) -> bool {
    match key {
        CellKey::Single(bits) => (bits / 0x80_0000) % 0x100 == 0xff,
        CellKey::Double(bits) => (bits / 0x10_0000_0000_0000) % 0x800 == 0x7ff,
    }
}

/// The text of a floating point number; NaN and infinity have no JSON form and
/// render as `null`.
pub open spec fn float_text(key: CellKey, texts: Seq<(CellKey, Seq<u8>)>) -> Result<Seq<u8>, Gap> {
    if has_no_number(key) {
        Ok(null_text())
    } else {
        match lookup_text(texts, key) {
            Some(t) => Ok(t),
            None => Err(Gap::Text(key)),
        }
    }
}

/// The single-precision number at `pos`.
pub open spec fn single_at(d: Seq<u8>, pos: int, texts: Seq<(CellKey, Seq<u8>)>) -> Shown {
    if pos + 4 <= d.len() {
        match float_text(CellKey::Single(le_nat(d.subrange(pos, pos + 4)) as u32), texts) {
            Ok(t) => Ok((t, pos + 4)),
            Err(g) => Err(g),
        }
    } else {
        Err(Gap::Short)
    }
}

/// The brain float at `pos`: the top half of a single-precision number.
pub open spec fn brain_at(d: Seq<u8>, pos: int, texts: Seq<(CellKey, Seq<u8>)>) -> Shown {
    if pos + 2 <= d.len() {
        match float_text(
            CellKey::Single((le_nat(d.subrange(pos, pos + 2)) * 0x1_0000) as u32),
            texts,
        ) {
            Ok(t) => Ok((t, pos + 2)),
            Err(g) => Err(g),
        }
    } else {
        Err(Gap::Short)
    }
}

/// The double-precision number at `pos`.
pub open spec fn double_at(d: Seq<u8>, pos: int, texts: Seq<(CellKey, Seq<u8>)>) -> Shown {
    if pos + 8 <= d.len() {
        match float_text(CellKey::Double(le_nat(d.subrange(pos, pos + 8)) as u64), texts) {
            Ok(t) => Ok((t, pos + 8)),
            Err(g) => Err(g),
        }
    } else {
        Err(Gap::Short)
    }
}

/// The point at `pos`: a pair of double-precision numbers.
pub open spec fn point_at(d: Seq<u8>, pos: int, texts: Seq<(CellKey, Seq<u8>)>) -> Shown {
    if pos + 16 <= d.len() {
        match double_at(d, pos, texts) {
            Ok((x, _)) => match double_at(d, pos + 8, texts) {
                Ok((y, _)) => Ok((seq![91u8] + x + seq![44u8] + y + seq![93u8], pos + 16)),
                Err(g) => Err(g),
            },
            Err(g) => Err(g),
        }
    } else {
        Err(Gap::Short)
    }
}

/// The contents of the length-prefixed string at `pos`.
pub open spec fn text_at(d: Seq<u8>, pos: int) -> Shown {
    match var_uint_at(d, pos) {
        Ok((len, p)) => if p + len <= d.len() {
            Ok((d.subrange(p, p + len), p + len))
        } else {
            Err(Gap::Short)
        },
        Err(_) => Err(Gap::Short),
    }
}

/// The rendering of a string cell.
pub open spec fn string_json_at(d: Seq<u8>, pos: int) -> Shown {
    match text_at(d, pos) {
        Ok((s, p)) => Ok((quoted_bytes(s), p)),
        Err(g) => Err(g),
    }
}

/// The rendering of a fixed string cell.
pub open spec fn fixed_string_at(d: Seq<u8>, pos: int, width: nat) -> Shown {
    if pos + width <= d.len() {
        Ok((quoted_bytes(d.subrange(pos, pos + width)), pos + width))
    } else {
        Err(Gap::Short)
    }
}

// ---------------------------------------------------------------------------
// Every type
// ---------------------------------------------------------------------------

/// The JSON text of the `RowBinary` value of type `t` at `pos`.
pub open spec fn json_at(d: Seq<u8>, pos: int, t: Ty, texts: Seq<(CellKey, Seq<u8>)>) -> Shown
    decreases t, 2nat, 0nat,
{
    match t {
        Ty::UInt8 => unsigned_at(d, pos, 1),
        Ty::UInt16 => unsigned_at(d, pos, 2),
        Ty::UInt32 => unsigned_at(d, pos, 4),
        Ty::Time => unsigned_at(d, pos, 4),
        Ty::UInt64 => unsigned_at(d, pos, 8),
        Ty::UInt128 => unsigned_at(d, pos, 16),
        Ty::Int8 => signed_at(d, pos, 1),
        Ty::Enum8 => signed_at(d, pos, 1),
        Ty::Int16 => signed_at(d, pos, 2),
        Ty::Enum16 => signed_at(d, pos, 2),
        Ty::Int32 => signed_at(d, pos, 4),
        Ty::Decimal32 { .. } => signed_at(d, pos, 4),
        Ty::Int64 => signed_at(d, pos, 8),
        Ty::Time64 => signed_at(d, pos, 8),
        Ty::Decimal64 { .. } => signed_at(d, pos, 8),
        Ty::Int128 => signed_at(d, pos, 16),
        Ty::Decimal128 { .. } => signed_at(d, pos, 16),
        Ty::Int256 => wide_at(d, pos),
        Ty::UInt256 => wide_at(d, pos),
        Ty::Decimal256 { .. } => wide_at(d, pos),
        Ty::Float32 => single_at(d, pos, texts),
        Ty::Float64 => double_at(d, pos, texts),
        Ty::BFloat16 => brain_at(d, pos, texts),
        // Date, Date32, DateTime and DateTime64 all render as their bare wire
        // integer: days or ticks since the epoch, at the column's precision.
        Ty::Date => unsigned_at(d, pos, 2),
        Ty::Date32 => signed_at(d, pos, 4),
        Ty::DateTime => unsigned_at(d, pos, 4),
        Ty::DateTime64 { .. } => signed_at(d, pos, 8),
        Ty::Uuid => uuid_at(d, pos),
        Ty::IPv4 => ipv4_at(d, pos),
        Ty::IPv6 => ipv6_at(d, pos),
        Ty::Point => point_at(d, pos, texts),
        Ty::String => string_json_at(d, pos),
        Ty::Json => string_json_at(d, pos),
        // RowBinary carries FixedString(N) as N raw bytes, no length prefix.
        Ty::FixedString(n) => fixed_string_at(d, pos, n as nat),
        Ty::Nullable(x) => if pos >= d.len() {
            Err(Gap::Short)
        } else if d[pos] != 0 {
            Ok((null_text(), pos + 1))
        } else {
            json_at(d, pos + 1, *x, texts)
        },
        // After LowCardinality expansion, individual cells are the inner type's bytes.
        Ty::LowCardinality(x) => json_at(d, pos, *x, texts),
        Ty::SimpleAggregateFunction(x) => json_at(d, pos, *x, texts),
        Ty::Array(_) => match var_uint_at(d, pos) {
            Ok((count, p)) => match json_run(d, p, t, count as nat, texts) {
                Ok((s, q)) => Ok((seq![91u8] + s + seq![93u8], q)),
                Err(g) => Err(g),
            },
            Err(_) => Err(Gap::Short),
        },
        Ty::Tuple(ts) => match json_fields(d, pos, ts, texts) {
            Ok((s, q)) => Ok((seq![91u8] + s + seq![93u8], q)),
            Err(g) => Err(g),
        },
        Ty::Mapping(_, _) => match var_uint_at(d, pos) {
            Ok((count, p)) => match json_run(d, p, t, count as nat, texts) {
                Ok((s, q)) => Ok((seq![123u8] + s + seq![125u8], q)),
                Err(g) => Err(g),
            },
            Err(_) => Err(Gap::Short),
        },
        // Dynamic, Variant and JSON cells already hold JSON text, length-
        // prefixed as RowBinary strings, so they are spliced in verbatim.
        Ty::Dynamic => text_at(d, pos),
        Ty::NewJson => text_at(d, pos),
        Ty::Variant(_) => text_at(d, pos),
    }
}

/// A comma, where something stands before it.
pub open spec fn comma(n: nat) -> Seq<u8> {
    if n > 1 {
        seq![44u8]
    } else {
        seq![]
    }
}

/// The name of a member whose key renders as `text`: a text that is no JSON
/// string yet is quoted.
pub open spec fn member_name(text: Seq<u8>) -> Seq<u8> {
    if text.len() > 0 && text[0] == 34 {
        text
    } else {
        quoted_bytes(text)
    }
}

/// The JSON text of `n` items of the array or map type `t` at `pos`.
pub open spec fn json_run(
    d: Seq<u8>,
    pos: int,
    t: Ty,
    n: nat,
    texts: Seq<(CellKey, Seq<u8>)>,
) -> Shown
    decreases t, 1nat, n,
{
    if n == 0 {
        Ok((seq![], pos))
    } else {
        match json_run(d, pos, t, (n - 1) as nat, texts) {
            Ok((s, p)) => match t {
                Ty::Array(x) => match json_at(d, p, *x, texts) {
                    Ok((item, q)) => Ok((s + comma(n) + item, q)),
                    Err(g) => Err(g),
                },
                Ty::Mapping(k, v) => match json_at(d, p, *k, texts) {
                    Ok((key, q)) => match json_at(d, q, *v, texts) {
                        Ok((value, r)) => Ok(
                            (s + comma(n) + member_name(key) + seq![58u8] + value, r),
                        ),
                        Err(g) => Err(g),
                    },
                    Err(g) => Err(g),
                },
                _ => Ok((s, p)),
            },
            Err(g) => Err(g),
        }
    }
}

/// The JSON text of the values of the fields `ts` at `pos`.
pub open spec fn json_fields(
    d: Seq<u8>,
    pos: int,
    ts: Seq<Ty>,
    texts: Seq<(CellKey, Seq<u8>)>,
) -> Shown
    decreases ts, 0nat, 0nat,
{
    if ts.len() == 0 {
        Ok((seq![], pos))
    } else {
        match json_fields(d, pos, ts.subrange(0, ts.len() - 1), texts) {
            Ok((s, p)) => match json_at(d, p, ts[ts.len() - 1], texts) {
                Ok((item, q)) => Ok((s + comma(ts.len()) + item, q)),
                Err(g) => Err(g),
            },
            Err(g) => Err(g),
        }
    }
}

/// The JSON text of a cell of type `t`, best-effort: a cell that cannot be
/// read renders as `null` rather than failing the block.
pub open spec fn json_cell(d: Seq<u8>, t: Ty, texts: Seq<(CellKey, Seq<u8>)>) -> Result<
    Seq<u8>,
    ErrorView,
> {
    match json_at(d, 0, t, texts) {
        Ok((s, _)) => Ok(s),
        Err(Gap::Short) => Ok(null_text()),
        Err(Gap::Text(key)) => Err(ErrorView::TextNeeded(key)),
    }
}

/// `r` appended the text that `s` gives to `before`, giving `after`.
pub open spec fn shows(
    r: Result<usize, Gap>,
    s: Shown,
    before: Seq<u8>,
    after: Seq<u8>,
    len: nat,
) -> bool {
    match r {
        Ok(p) => match s {
            Ok((text, q)) => after == before + text && p == q && p <= len,
            Err(_) => false,
        },
        Err(g) => s == Err::<(Seq<u8>, int), Gap>(g),
    }
}

fn show_unsigned(d: &[u8], pos: usize, width: usize, out: &mut Vec<u8>) -> (r: Result<usize, Gap>)
    requires
        pos <= d@.len(),
        width <= 16,
    ensures
        shows(
            r,
            unsigned_at(d@, pos as int, width as nat),
            old(out)@,
            final(out)@,
            d@.len(),
        ),
{
    if width > d.len() - pos {
        return Err(Gap::Short);
    }
    push_decimal_bytes(out, le_number(d, pos, width));
    Ok(pos + width)
}

/// Append the decimal text of a signed number.
fn push_signed(out: &mut Vec<u8>, n: i128)
    ensures
        final(out)@ == old(out)@ + signed_bytes(n as int),
{
    if n < 0 {
        out.push(45);
        if n == i128::MIN {
            push_decimal_bytes(out, 0x8000_0000_0000_0000_0000_0000_0000_0000);
        } else {
            push_decimal_bytes(out, (-n) as u128);
        }
    } else {
        push_decimal_bytes(out, n as u128);
    }
    assert(out@ =~= old(out)@ + signed_bytes(n as int));
}

fn show_signed(d: &[u8], pos: usize, width: usize, out: &mut Vec<u8>) -> (r: Result<usize, Gap>)
    requires
        pos <= d@.len(),
        width == 1 || width == 2 || width == 4 || width == 8 || width == 16,
    ensures
        shows(r, signed_at(d@, pos as int, width as nat), old(out)@, final(out)@, d@.len()),
{
    if width > d.len() - pos {
        return Err(Gap::Short);
    }
    let n: u128 = le_number(d, pos, width);
    proof {
        lemma_pow256();
    }
    let v: i128 = if width == 1 {
        signed8(n as u8) as i128
    } else if width == 2 {
        signed16(n as u16) as i128
    } else if width == 4 {
        signed32(n as u32) as i128
    } else if width == 8 {
        signed64(n as u64) as i128
    } else {
        signed128(n)
    };
    push_signed(out, v);
    Ok(pos + width)
}

/// Append the hex digits of the `n` bytes at `pos`, last byte first.
fn push_reversed_hex(out: &mut Vec<u8>, d: &[u8], pos: usize, n: usize)
    requires
        pos + n <= d@.len(),
    ensures
        final(out)@ == old(out)@ + reversed_hex(d@.subrange(pos as int, pos + n)),
{
    let size: usize = d.len();
    let end: usize = pos + n;
    let mut i: usize = end;
    assert(out@ =~= old(out)@ + reversed_hex(d@.subrange(end as int, end as int)));
    while i > pos
        invariant
            pos <= i <= end <= d@.len(),
            out@ == old(out)@ + reversed_hex(d@.subrange(i as int, end as int)),
        decreases i,
    {
        i = i - 1;
        proof {
            assert(d@.subrange(i as int, end as int).drop_first() =~= d@.subrange(
                i + 1,
                end as int,
            ));
        }
        out.push(hex_digit_of(d[i] / 16));
        out.push(hex_digit_of(d[i] % 16));
        assert(out@ =~= old(out)@ + reversed_hex(d@.subrange(i as int, end as int)));
    }
}

fn show_wide(d: &[u8], pos: usize, out: &mut Vec<u8>) -> (r: Result<usize, Gap>)
    requires
        pos <= d@.len(),
    ensures
        shows(r, wide_at(d@, pos as int), old(out)@, final(out)@, d@.len()),
{
    if 32 > d.len() - pos {
        return Err(Gap::Short);
    }
    out.push(34);
    push_reversed_hex(out, d, pos, 32);
    out.push(34);
    assert(out@ =~= old(out)@ + (seq![34u8] + reversed_hex(d@.subrange(pos as int, pos + 32))
        + seq![34u8]));
    Ok(pos + 32)
}

proof fn lemma_reversed_hex_len(b: Seq<u8>)
    ensures
        reversed_hex(b).len() == 2 * b.len(),
    decreases b.len(),
{
    if b.len() > 0 {
        lemma_reversed_hex_len(b.drop_first());
    }
}

/// Append the hyphenated text of the UUID in the 16 bytes `b`.
pub fn push_uuid(out: &mut Vec<u8>, b: &[u8])
    requires
        b@.len() == 16,
    ensures
        final(out)@ == old(out)@ + uuid_text(b@),
{
    let mut digits: Vec<u8> = Vec::new();
    push_reversed_hex(&mut digits, b, 0, 8);
    push_reversed_hex(&mut digits, b, 8, 8);
    proof {
        lemma_reversed_hex_len(b@.subrange(0, 8));
        lemma_reversed_hex_len(b@.subrange(8, 16));
        assert(digits@ =~= reversed_hex(b@.subrange(0, 8)) + reversed_hex(b@.subrange(8, 16)));
    }
    let s = digits.as_slice();
    push_all(out, vstd::slice::slice_subrange(s, 0, 8));
    out.push(45);
    push_all(out, vstd::slice::slice_subrange(s, 8, 12));
    out.push(45);
    push_all(out, vstd::slice::slice_subrange(s, 12, 16));
    out.push(45);
    push_all(out, vstd::slice::slice_subrange(s, 16, 20));
    out.push(45);
    push_all(out, vstd::slice::slice_subrange(s, 20, 32));
    assert(out@ =~= old(out)@ + uuid_text(b@));
}

fn show_uuid(d: &[u8], pos: usize, out: &mut Vec<u8>) -> (r: Result<usize, Gap>)
    requires
        pos <= d@.len(),
    ensures
        shows(r, uuid_at(d@, pos as int), old(out)@, final(out)@, d@.len()),
{
    if 16 > d.len() - pos {
        return Err(Gap::Short);
    }
    out.push(34);
    push_uuid(out, vstd::slice::slice_subrange(d, pos, pos + 16));
    out.push(34);
    assert(out@ =~= old(out)@ + (seq![34u8] + uuid_text(d@.subrange(pos as int, pos + 16))
        + seq![34u8]));
    Ok(pos + 16)
}

fn show_ipv4(d: &[u8], pos: usize, out: &mut Vec<u8>) -> (r: Result<usize, Gap>)
    requires
        pos <= d@.len(),
    ensures
        shows(r, ipv4_at(d@, pos as int), old(out)@, final(out)@, d@.len()),
{
    if 4 > d.len() - pos {
        return Err(Gap::Short);
    }
    out.push(34);
    push_quad(out, d[pos + 3], d[pos + 2], d[pos + 1], d[pos]);
    out.push(34);
    assert(out@ =~= old(out)@ + (seq![34u8] + quad(
        d@[pos + 3],
        d@[pos + 2],
        d@[pos + 1],
        d@[pos as int],
    ) + seq![34u8]));
    Ok(pos + 4)
}

fn show_ipv6(d: &[u8], pos: usize, out: &mut Vec<u8>) -> (r: Result<usize, Gap>)
    requires
        pos <= d@.len(),
    ensures
        shows(r, ipv6_at(d@, pos as int), old(out)@, final(out)@, d@.len()),
{
    if 16 > d.len() - pos {
        return Err(Gap::Short);
    }
    out.push(34);
    push_ipv6(out, vstd::slice::slice_subrange(d, pos, pos + 16));
    out.push(34);
    assert(out@ =~= old(out)@ + (seq![34u8] + ipv6_text(d@.subrange(pos as int, pos + 16))
        + seq![34u8]));
    Ok(pos + 16)
}

fn push_float(out: &mut Vec<u8>, key: CellKey, texts: &CellTexts) -> (r: Result<(), Gap>)
    ensures
        match r {
            Ok(()) => match float_text(key, texts@) {
                Ok(t) => final(out)@ == old(out)@ + t,
                Err(_) => false,
            },
            Err(g) => float_text(key, texts@) == Err::<Seq<u8>, Gap>(g),
        },
{
    let special = match key {
        CellKey::Single(bits) => (bits / 0x80_0000) % 0x100 == 0xff,
        CellKey::Double(bits) => (bits / 0x10_0000_0000_0000) % 0x800 == 0x7ff,
    };
    if special {
        push_null(out);
        return Ok(());
    }
    match texts.get(key) {
        Some(t) => {
            push_all(out, t.as_slice());
            Ok(())
        },
        None => Err(Gap::Text(key)),
    }
}

fn show_single(d: &[u8], pos: usize, texts: &CellTexts, out: &mut Vec<u8>) -> (r: Result<
    usize,
    Gap,
>)
    requires
        pos <= d@.len(),
    ensures
        shows(r, single_at(d@, pos as int, texts@), old(out)@, final(out)@, d@.len()),
{
    if 4 > d.len() - pos {
        return Err(Gap::Short);
    }
    proof {
        lemma_pow256();
    }
    push_float(out, CellKey::Single(le_number(d, pos, 4) as u32), texts)?;
    Ok(pos + 4)
}

fn show_brain(d: &[u8], pos: usize, texts: &CellTexts, out: &mut Vec<u8>) -> (r: Result<
    usize,
    Gap,
>)
    requires
        pos <= d@.len(),
    ensures
        shows(r, brain_at(d@, pos as int, texts@), old(out)@, final(out)@, d@.len()),
{
    if 2 > d.len() - pos {
        return Err(Gap::Short);
    }
    proof {
        lemma_pow256();
    }
    push_float(out, CellKey::Single(le_number(d, pos, 2) as u32 * 0x1_0000), texts)?;
    Ok(pos + 2)
}

fn show_double(d: &[u8], pos: usize, texts: &CellTexts, out: &mut Vec<u8>) -> (r: Result<
    usize,
    Gap,
>)
    requires
        pos <= d@.len(),
    ensures
        shows(r, double_at(d@, pos as int, texts@), old(out)@, final(out)@, d@.len()),
{
    if 8 > d.len() - pos {
        return Err(Gap::Short);
    }
    proof {
        lemma_pow256();
    }
    push_float(out, CellKey::Double(le_number(d, pos, 8) as u64), texts)?;
    Ok(pos + 8)
}

fn show_point(d: &[u8], pos: usize, texts: &CellTexts, out: &mut Vec<u8>) -> (r: Result<
    usize,
    Gap,
>)
    requires
        pos <= d@.len(),
    ensures
        shows(r, point_at(d@, pos as int, texts@), old(out)@, final(out)@, d@.len()),
{
    if 16 > d.len() - pos {
        return Err(Gap::Short);
    }
    out.push(91);
    show_double(d, pos, texts, out)?;
    out.push(44);
    show_double(d, pos + 8, texts, out)?;
    out.push(93);
    proof {
        let x = double_at(d@, pos as int, texts@)->Ok_0.0;
        let y = double_at(d@, pos + 8, texts@)->Ok_0.0;
        assert(out@ =~= old(out)@ + (seq![91u8] + x + seq![44u8] + y + seq![93u8]));
    }
    Ok(pos + 16)
}

/// Where the contents of the length-prefixed string at `pos` start and end.
fn text_bounds(d: &[u8], pos: usize) -> (r: Option<(usize, usize)>)
    requires
        pos <= d@.len(),
    ensures
        match r {
            Some((p, q)) => p <= q <= d@.len() && text_at(d@, pos as int) == Ok::<
                (Seq<u8>, int),
                Gap,
            >((d@.subrange(p as int, q as int), q as int)),
            None => text_at(d@, pos as int) == Err::<(Seq<u8>, int), Gap>(Gap::Short),
        },
{
    match var_uint_from(d, pos) {
        Ok((len, p)) => {
            if len > (d.len() - p) as u64 {
                None
            } else {
                Some((p, p + len as usize))
            }
        },
        Err(_) => None,
    }
}

fn show_string(d: &[u8], pos: usize, out: &mut Vec<u8>) -> (r: Result<usize, Gap>)
    requires
        pos <= d@.len(),
    ensures
        shows(r, string_json_at(d@, pos as int), old(out)@, final(out)@, d@.len()),
{
    match text_bounds(d, pos) {
        Some((p, q)) => {
            push_quoted(out, vstd::slice::slice_subrange(d, p, q));
            Ok(q)
        },
        None => Err(Gap::Short),
    }
}

fn show_verbatim(d: &[u8], pos: usize, out: &mut Vec<u8>) -> (r: Result<usize, Gap>)
    requires
        pos <= d@.len(),
    ensures
        shows(r, text_at(d@, pos as int), old(out)@, final(out)@, d@.len()),
{
    match text_bounds(d, pos) {
        Some((p, q)) => {
            push_all(out, vstd::slice::slice_subrange(d, p, q));
            Ok(q)
        },
        None => Err(Gap::Short),
    }
}

fn show_fixed_string(d: &[u8], pos: usize, width: usize, out: &mut Vec<u8>) -> (r: Result<
    usize,
    Gap,
>)
    requires
        pos <= d@.len(),
    ensures
        shows(
            r,
            fixed_string_at(d@, pos as int, width as nat),
            old(out)@,
            final(out)@,
            d@.len(),
        ),
{
    if width > d.len() - pos {
        return Err(Gap::Short);
    }
    push_quoted(out, vstd::slice::slice_subrange(d, pos, pos + width));
    Ok(pos + width)
}

proof fn lemma_json_run_err(
    d: Seq<u8>,
    pos: int,
    t: Ty,
    k: nat,
    n: nat,
    texts: Seq<(CellKey, Seq<u8>)>,
)
    requires
        k <= n,
        json_run(d, pos, t, k, texts) is Err,
    ensures
        json_run(d, pos, t, n, texts) == json_run(d, pos, t, k, texts),
    decreases n,
{
    if k < n {
        lemma_json_run_err(d, pos, t, k, (n - 1) as nat, texts);
    }
}

proof fn lemma_json_fields_err(
    d: Seq<u8>,
    pos: int,
    ts: Seq<Ty>,
    k: int,
    texts: Seq<(CellKey, Seq<u8>)>,
)
    requires
        0 <= k <= ts.len(),
        json_fields(d, pos, ts.subrange(0, k), texts) is Err,
    ensures
        json_fields(d, pos, ts, texts) == json_fields(d, pos, ts.subrange(0, k), texts),
    decreases ts.len() - k,
{
    if k < ts.len() {
        assert(ts.subrange(0, k + 1).subrange(0, k) =~= ts.subrange(0, k));
        lemma_json_fields_err(d, pos, ts, k + 1, texts);
    } else {
        assert(ts.subrange(0, k) =~= ts);
    }
}

fn show_array(d: &[u8], pos: usize, inner: &ColumnType, texts: &CellTexts, out: &mut Vec<u8>) -> (r:
    Result<usize, Gap>)
    requires
        pos <= d@.len(),
    ensures
        shows(
            r,
            json_at(d@, pos as int, Ty::Array(Box::new(inner@)), texts@),
            old(out)@,
            final(out)@,
            d@.len(),
        ),
    decreases inner, 3nat,
{
    let ghost t = Ty::Array(Box::new(inner@));
    let (count, start) = match var_uint_from(d, pos) {
        Ok(x) => x,
        Err(_) => {
            return Err(Gap::Short);
        },
    };
    out.push(91);
    let mut p: usize = start;
    let mut i: u64 = 0;
    let ghost mut s: Seq<u8> = seq![];
    assert(out@ =~= old(out)@ + (seq![91u8] + s));
    while i < count
        invariant
            i <= count,
            p <= d@.len(),
            t == Ty::Array(Box::new(inner@)),
            var_uint_at(d@, pos as int) == Ok::<(u64, int), ErrorView>((count, start as int)),
            json_run(d@, start as int, t, i as nat, texts@) == Ok::<(Seq<u8>, int), Gap>(
                (s, p as int),
            ),
            out@ == old(out)@ + (seq![91u8] + s),
        decreases count - i,
    {
        if i > 0 {
            out.push(44);
        }
        match show(d, p, inner, texts, out) {
            Ok(q) => {
                proof {
                    let item = json_at(d@, p as int, inner@, texts@)->Ok_0.0;
                    let next = s + comma((i + 1) as nat) + item;
                    assert(out@ =~= old(out)@ + (seq![91u8] + next));
                    s = next;
                }
                p = q;
            },
            Err(g) => {
                proof {
                    lemma_json_run_err(
                        d@,
                        start as int,
                        t,
                        (i + 1) as nat,
                        count as nat,
                        texts@,
                    );
                }
                return Err(g);
            },
        }
        i = i + 1;
    }
    out.push(93);
    assert(out@ =~= old(out)@ + (seq![91u8] + s + seq![93u8]));
    Ok(p)
}

fn show_tuple(d: &[u8], pos: usize, fields: &Vec<ColumnType>, texts: &CellTexts, out: &mut Vec<u8>) -> (r:
    Result<usize, Gap>)
    requires
        pos <= d@.len(),
    ensures
        shows(
            r,
            json_at(d@, pos as int, Ty::Tuple(tys(fields@)), texts@),
            old(out)@,
            final(out)@,
            d@.len(),
        ),
    decreases fields, 3nat,
{
    out.push(91);
    let mut p: usize = pos;
    let mut i: usize = 0;
    let ghost ts = tys(fields@);
    let ghost mut s: Seq<u8> = seq![];
    assert(out@ =~= old(out)@ + (seq![91u8] + s));
    while i < fields.len()
        invariant
            i <= fields.len(),
            p <= d@.len(),
            ts == tys(fields@),
            json_fields(d@, pos as int, ts.subrange(0, i as int), texts@) == Ok::<
                (Seq<u8>, int),
                Gap,
            >((s, p as int)),
            out@ == old(out)@ + (seq![91u8] + s),
        decreases fields.len() - i,
    {
        proof {
            assert(ts.subrange(0, i + 1).subrange(0, i as int) =~= ts.subrange(0, i as int));
        }
        if i > 0 {
            out.push(44);
        }
        match show(d, p, &fields[i], texts, out) {
            Ok(q) => {
                proof {
                    let item = json_at(d@, p as int, ts[i as int], texts@)->Ok_0.0;
                    let next = s + comma((i + 1) as nat) + item;
                    assert(out@ =~= old(out)@ + (seq![91u8] + next));
                    s = next;
                }
                p = q;
            },
            Err(g) => {
                proof {
                    lemma_json_fields_err(d@, pos as int, ts, i + 1, texts@);
                }
                return Err(g);
            },
        }
        i = i + 1;
    }
    assert(ts.subrange(0, i as int) =~= ts);
    out.push(93);
    assert(out@ =~= old(out)@ + (seq![91u8] + s + seq![93u8]));
    Ok(p)
}

fn push_member_name(out: &mut Vec<u8>, text: &[u8])
    ensures
        final(out)@ == old(out)@ + member_name(text@),
{
    if text.len() > 0 && text[0] == 34 {
        push_all(out, text);
    } else {
        push_quoted(out, text);
    }
}

fn show_map(d: &[u8], pos: usize, col_type: &ColumnType, texts: &CellTexts, out: &mut Vec<u8>) -> (r:
    Result<usize, Gap>)
    requires
        pos <= d@.len(),
        col_type is Mapping,
    ensures
        shows(
            r,
            json_at(d@, pos as int, col_type@, texts@),
            old(out)@,
            final(out)@,
            d@.len(),
        ),
    decreases col_type, 1nat,
{
    match col_type {
        ColumnType::Mapping(key_type, val_type) => {
            let (count, start) = match var_uint_from(d, pos) {
                Ok(x) => x,
                Err(_) => {
                    return Err(Gap::Short);
                },
            };
            out.push(123);
            let mut p: usize = start;
            let mut i: u64 = 0;
            let ghost mut s: Seq<u8> = seq![];
            assert(out@ =~= old(out)@ + (seq![123u8] + s));
            while i < count
                invariant
                    i <= count,
                    p <= d@.len(),
                    col_type@ == Ty::Mapping(Box::new(key_type@), Box::new(val_type@)),
                    var_uint_at(d@, pos as int) == Ok::<(u64, int), ErrorView>(
                        (count, start as int),
                    ),
                    json_run(d@, start as int, col_type@, i as nat, texts@) == Ok::<
                        (Seq<u8>, int),
                        Gap,
                    >((s, p as int)),
                    out@ == old(out)@ + (seq![123u8] + s),
                    decreases_to!(col_type => key_type),
                    decreases_to!(col_type => val_type),
                decreases count - i,
            {
                if i > 0 {
                    out.push(44);
                }
                let ghost n = (i + 1) as nat;
                let mut key: Vec<u8> = Vec::new();
                let q = match show(d, p, key_type, texts, &mut key) {
                    Ok(q) => q,
                    Err(g) => {
                        proof {
                            lemma_json_run_err(d@, start as int, col_type@, n, count as nat, texts@);
                        }
                        return Err(g);
                    },
                };
                proof {
                    assert(key@ =~= json_at(d@, p as int, key_type@, texts@)->Ok_0.0);
                }
                push_member_name(out, key.as_slice());
                out.push(58);
                match show(d, q, val_type, texts, out) {
                    Ok(end) => {
                        proof {
                            let key = json_at(d@, p as int, key_type@, texts@)->Ok_0.0;
                            let value = json_at(d@, q as int, val_type@, texts@)->Ok_0.0;
                            let next = s + comma(n) + member_name(key) + seq![58u8] + value;
                            assert(out@ =~= old(out)@ + (seq![123u8] + next));
                            s = next;
                        }
                        p = end;
                    },
                    Err(g) => {
                        proof {
                            lemma_json_run_err(d@, start as int, col_type@, n, count as nat, texts@);
                        }
                        return Err(g);
                    },
                }
                i = i + 1;
            }
            out.push(125);
            assert(out@ =~= old(out)@ + (seq![123u8] + s + seq![125u8]));
            Ok(p)
        },
        _ => Ok(pos),
    }
}

/// Append the JSON text of the value of `col_type` at `pos`, and hand back the
/// position behind the value.
fn show(d: &[u8], pos: usize, col_type: &ColumnType, texts: &CellTexts, out: &mut Vec<u8>) -> (r:
    Result<usize, Gap>)
    requires
        pos <= d@.len(),
    ensures
        shows(
            r,
            json_at(d@, pos as int, col_type@, texts@),
            old(out)@,
            final(out)@,
            d@.len(),
        ),
    decreases col_type, 2nat,
{
    match col_type {
        ColumnType::UInt8 => show_unsigned(d, pos, 1, out),
        ColumnType::UInt16 | ColumnType::Date => show_unsigned(d, pos, 2, out),
        ColumnType::UInt32 | ColumnType::Time | ColumnType::DateTime => show_unsigned(
            d,
            pos,
            4,
            out,
        ),
        ColumnType::UInt64 => show_unsigned(d, pos, 8, out),
        ColumnType::UInt128 => show_unsigned(d, pos, 16, out),
        ColumnType::Int8 | ColumnType::Enum8 => show_signed(d, pos, 1, out),
        ColumnType::Int16 | ColumnType::Enum16 => show_signed(d, pos, 2, out),
        ColumnType::Int32 | ColumnType::Decimal32 { .. } | ColumnType::Date32 => show_signed(
            d,
            pos,
            4,
            out,
        ),
        ColumnType::Int64
        | ColumnType::Time64
        | ColumnType::Decimal64 { .. }
        | ColumnType::DateTime64 { .. } => show_signed(d, pos, 8, out),
        ColumnType::Int128 | ColumnType::Decimal128 { .. } => show_signed(d, pos, 16, out),
        ColumnType::Int256 | ColumnType::UInt256 | ColumnType::Decimal256 { .. } => show_wide(
            d,
            pos,
            out,
        ),
        ColumnType::Float32 => show_single(d, pos, texts, out),
        ColumnType::Float64 => show_double(d, pos, texts, out),
        ColumnType::BFloat16 => show_brain(d, pos, texts, out),
        ColumnType::Uuid => show_uuid(d, pos, out),
        ColumnType::IPv4 => show_ipv4(d, pos, out),
        ColumnType::IPv6 => show_ipv6(d, pos, out),
        ColumnType::Point => show_point(d, pos, texts, out),
        ColumnType::String | ColumnType::Json => show_string(d, pos, out),
        ColumnType::FixedString(width) => show_fixed_string(d, pos, *width, out),
        ColumnType::Nullable(inner) => {
            if pos >= d.len() {
                Err(Gap::Short)
            } else if d[pos] != 0 {
                push_null(out);
                Ok(pos + 1)
            } else {
                show(d, pos + 1, inner, texts, out)
            }
        },
        ColumnType::LowCardinality(inner) => show(d, pos, inner, texts, out),
        ColumnType::SimpleAggregateFunction(inner) => show(d, pos, inner, texts, out),
        ColumnType::Array(inner) => show_array(d, pos, inner, texts, out),
        ColumnType::Tuple(fields) => {
            proof {
                lemma_tys(*fields);
            }
            show_tuple(d, pos, fields, texts, out)
        },
        ColumnType::Mapping(_, _) => show_map(d, pos, col_type, texts, out),
        ColumnType::Dynamic | ColumnType::NewJson | ColumnType::Variant(_) => show_verbatim(
            d,
            pos,
            out,
        ),
    }
}

/// The JSON text of the value of `col_type` at the front of `bytes`, and how
/// many bytes the value takes.
///
/// # Errors
///
/// [`Gap::Short`] where the bytes end inside the value, [`Gap::Text`] where the
/// text of a number is not in `texts`.
pub fn rowbinary_to_json_inner(bytes: &[u8], col_type: &ColumnType, texts: &CellTexts) -> (r: Result<
    (Vec<u8>, usize),
    Gap,
>)
    ensures
        match r {
            Ok((out, n)) => json_at(bytes@, 0, col_type@, texts@) == Ok::<(Seq<u8>, int), Gap>(
                (out@, n as int),
            ) && n <= bytes@.len(),
            Err(g) => json_at(bytes@, 0, col_type@, texts@) == Err::<(Seq<u8>, int), Gap>(g),
        },
{
    let mut out: Vec<u8> = Vec::new();
    let n: usize = show(bytes, 0, col_type, texts, &mut out)?;
    assert(out@ =~= json_at(bytes@, 0, col_type@, texts@)->Ok_0.0);
    Ok((out, n))
}

/// Convert a RowBinary-encoded value for `col_type` into JSON bytes,
/// best-effort: any parse failure renders as `null` rather than propagating.
///
/// # Errors
///
/// [`Error::TextNeeded`] names a number whose text `texts` does not hold.
pub fn rowbinary_to_json(bytes: &[u8], col_type: &ColumnType, texts: &CellTexts) -> (r: Result<
    Vec<u8>,
    Error,
>)
    ensures
        match r {
            Ok(out) => json_cell(bytes@, col_type@, texts@) == Ok::<Seq<u8>, ErrorView>(out@),
            Err(e) => json_cell(bytes@, col_type@, texts@) == Err::<Seq<u8>, ErrorView>(e@),
        },
{
    match rowbinary_to_json_inner(bytes, col_type, texts) {
        Ok((out, _)) => Ok(out),
        Err(Gap::Short) => {
            let mut out: Vec<u8> = Vec::new();
            push_null(&mut out);
            assert(out@ =~= null_text());
            Ok(out)
        },
        Err(Gap::Text(key)) => Err(Error::TextNeeded(key)),
    }
}

} // verus!
