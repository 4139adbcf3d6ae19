//! The laws of the typed decoder.

use vstd::prelude::*;

use crate::error::ErrorView;
use crate::native::columns::{deepest, fixed_size, nesting, type_of, Ty};
use crate::native::decode::{
    announced_columns, announced_reader, announced_schema, block_at, block_reader, block_values_at,
    custom_flag_at, decode_at, decode_field_prefixes_at, decode_fields_at, decode_prefixes_at,
    index_column_at, lc_head_at, lc_tail_at, le_column_at, le_reader, offsets_at, rising_at,
    scalar_at, signed_column, text_reader, tuple_col, utf8_doc, Announced, LeScalar, MAX_BLOCK_COLUMNS, MAX_BLOCK_ROWS,
    MAX_DECODE_DEPTH,
};
use crate::native::decoded::{BlockView, Col, DecodedColumn};
use crate::native::encode::{
    block_columns, col_bytes, column_header, column_tys, declared_type, dict_type, each, encoded,
    field_prefixes, fields_at, flat, has_custom, index_bytes, index_width, null_flags, offset_bytes,
    prefixes, row_of, SchemaView,
};
use crate::native::io::{
    claim, law_le_round_trip, law_string_round_trip, le_bytes, le_nat, lemma_le_bytes_len,
    lemma_pow256, lemma_stands_split, many, pow256, stands_at, string, u64_at, utf8_string_at,
    MAX_STRING_SIZE, WireView,
};
use crate::native::label::debug_text;
use crate::native::laws::{
    affords, all_plain, fields_written_as, is_lc_form, joined_entries, law_cells_round_trip,
    lc_places, lc_state, lc_vals, lemma_array_layout, lemma_array_written, lemma_claim,
    lemma_field_column, lemma_flat_grows, lemma_last_field_written, lemma_lc_keys_stand,
    lemma_low_cardinality_written, lemma_map_layout, lemma_map_written, lemma_nullable_layout,
    lemma_nullable_written, lemma_offsets_same, lemma_tuple_layout, lemma_tuple_written, offsets_of,
    plain, rows_fit, written_as, LowCardinalityForm,
};
use crate::native::reader::{column_at, last_or_zero, Cells};
use crate::native::values::{
    all_fit, cell, cells, field_vals, fits, key_vals, lemma_all_fit, lemma_cells, lemma_each_ok,
    lemma_entry_cells, lemma_fields_at, lemma_fields_total, lemma_flat_push, lemma_total_len,
    list_cells, lists_of, pairs_of, slot_vals, total, tuple_rows, value_vals, Val,
};

verus! {

/// The bytes of fixed-width values.
pub open spec fn raws(vals: Seq<Val>) -> Cells {
    vals.map_values(|v: Val| v->Raw_0)
}

/// The bytes of strings.
pub open spec fn texts(vals: Seq<Val>) -> Cells {
    vals.map_values(|v: Val| v->Text_0)
}

/// The first bytes of fixed-width values.
pub open spec fn octets(vals: Seq<Val>) -> Seq<u8> {
    vals.map_values(|v: Val| v->Raw_0[0])
}

/// The numbers that fixed-width values are.
pub open spec fn numbers<T: LeScalar>(vals: Seq<Val>) -> Seq<T> {
    vals.map_values(|v: Val| T::of_bits(le_nat(v->Raw_0)))
}

/// Indices as a column of the width that addresses `n` keys.
pub open spec fn index_col(indices: Seq<nat>, n: nat) -> Col {
    if n <= 0x100 {
        Col::UInt8(indices.map_values(|i: nat| i as u8))
    } else if n <= 0x1_0000 {
        Col::UInt16(indices.map_values(|i: nat| i as u16))
    } else {
        Col::UInt32(indices.map_values(|i: nat| i as u32))
    }
}

/// The typed column of values of a scalar type.
#[verifier::opaque]
pub open spec fn scalar_col(vals: Seq<Val>, t: Ty) -> Col {
    match t {
        Ty::UInt8 => Col::UInt8(octets(vals)),
        Ty::Enum8 => Col::UInt8(octets(vals)),
        Ty::Int8 => Col::Int8(signed_column(octets(vals))),
        Ty::UInt16 => Col::UInt16(numbers(vals)),
        Ty::Enum16 => Col::UInt16(numbers(vals)),
        Ty::Int16 => Col::Int16(numbers(vals)),
        Ty::UInt32 => Col::UInt32(numbers(vals)),
        Ty::Int32 => Col::Int32(numbers(vals)),
        Ty::UInt64 => Col::UInt64(numbers(vals)),
        Ty::Int64 => Col::Int64(numbers(vals)),
        Ty::Int128 => Col::Int128(numbers(vals)),
        Ty::UInt128 => Col::UInt128(numbers(vals)),
        Ty::Int256 => Col::Int256(raws(vals)),
        Ty::UInt256 => Col::UInt256(raws(vals)),
        Ty::Float32 => Col::Float32(numbers(vals)),
        Ty::Float64 => Col::Float64(numbers(vals)),
        Ty::Decimal32 { precision, scale } => Col::Decimal32 {
            precision,
            scale,
            values: numbers(vals),
        },
        Ty::Decimal64 { precision, scale } => Col::Decimal64 {
            precision,
            scale,
            values: numbers(vals),
        },
        Ty::Decimal128 { precision, scale } => Col::Decimal128 {
            precision,
            scale,
            values: numbers(vals),
        },
        Ty::Decimal256 { precision, scale } => Col::Decimal256 {
            precision,
            scale,
            values: raws(vals),
        },
        Ty::String => Col::String(texts(vals)),
        Ty::Json => Col::Json(texts(vals)),
        Ty::FixedString(width) => Col::FixedString { width, bytes: flat(cells(vals)) },
        Ty::Date => Col::Date(numbers(vals)),
        Ty::Date32 => Col::Date32(numbers(vals)),
        Ty::DateTime => Col::DateTime(numbers(vals)),
        Ty::DateTime64 { precision, timezone } => Col::DateTime64 {
            precision,
            timezone,
            values: numbers(vals),
        },
        Ty::Uuid => Col::Uuid(raws(vals)),
        Ty::IPv4 => Col::Ipv4(numbers(vals)),
        Ty::IPv6 => Col::Ipv6(raws(vals)),
        // BFloat16, Time and Time64 have no typed column.
        _ => Col::Unsupported(debug_text(t)),
    }
}

/// The typed column of values.
pub open spec fn col_of(vals: Seq<Val>, t: Ty) -> Col
    decreases t,
{
    match t {
        Ty::Nullable(x) => Col::Nullable {
            mask: null_flags(cells(vals)),
            child: Box::new(col_of(slot_vals(vals, *x), *x)),
        },
        Ty::Array(x) => Col::Array {
            offsets: offsets_of(lists_of(vals)),
            child: Box::new(col_of(flat(lists_of(vals)), *x)),
        },
        Ty::Mapping(k, v) => Col::Mapping {
            offsets: offsets_of(pairs_of(vals)),
            keys: Box::new(col_of(key_vals(flat(pairs_of(vals))), *k)),
            values: Box::new(col_of(value_vals(flat(pairs_of(vals))), *v)),
        },
        Ty::Tuple(ts) => tuple_col(field_cols(vals, ts), t),
        Ty::LowCardinality(x) => Col::LowCardinality {
            dict: Box::new(
                match *x {
                    Ty::Nullable(y) => col_of(lc_vals(vals, *x), *y),
                    _ => col_of(lc_vals(vals, *x), *x),
                },
            ),
            indices: Box::new(index_col(lc_places(vals, *x), lc_vals(vals, *x).len())),
            is_nullable_inner: *x is Nullable,
        },
        _ => scalar_col(vals, t),
    }
}

/// The typed columns of the fields of tuple values.
pub open spec fn field_cols(vals: Seq<Val>, ts: Seq<Ty>) -> Seq<Col>
    decreases ts,
{
    if ts.len() == 0 {
        seq![]
    } else {
        field_cols(vals, ts.subrange(0, ts.len() - 1)).push(
            col_of(field_vals(vals, ts.len() - 1), ts[ts.len() - 1]),
        )
    }
}

/// Whether no fixed string within a type is without width.
pub open spec fn wide(t: Ty) -> bool
    decreases t,
{
    match t {
        Ty::FixedString(n) => n > 0,
        Ty::Nullable(x) => wide(*x),
        Ty::LowCardinality(x) => wide(*x),
        Ty::Array(x) => wide(*x),
        Ty::Mapping(k, v) => wide(*k) && wide(*v),
        Ty::Tuple(ts) => all_wide(ts),
        _ => true,
    }
}

/// Whether all of `ts` are wide.
pub open spec fn all_wide(ts: Seq<Ty>) -> bool
    decreases ts,
{
    ts.len() == 0 || (all_wide(ts.subrange(0, ts.len() - 1)) && wide(ts[ts.len() - 1]))
}

/// Whether typed columns of the type come back as they were written.
pub open spec fn typed(t: Ty) -> bool {
    plain(t) && wide(t)
}

/// Whether all of `ts` are typed.
pub open spec fn all_typed(ts: Seq<Ty>) -> bool {
    all_plain(ts) && all_wide(ts)
}

/// How many fields the widest tuple within a type has.
pub open spec fn arity(t: Ty) -> nat
    decreases t,
{
    match t {
        Ty::Nullable(x) => arity(*x),
        Ty::LowCardinality(x) => arity(*x),
        Ty::Array(x) => arity(*x),
        Ty::Mapping(k, v) => if arity(*k) > arity(*v) {
            arity(*k)
        } else {
            arity(*v)
        },
        Ty::Tuple(ts) => if field_arity(ts) > ts.len() {
            field_arity(ts)
        } else {
            ts.len()
        },
        _ => 0,
    }
}

/// How many fields the widest tuple within `ts` has.
pub open spec fn field_arity(ts: Seq<Ty>) -> nat
    decreases ts,
{
    if ts.len() == 0 {
        0
    } else {
        let rest = field_arity(ts.subrange(0, ts.len() - 1));
        if arity(ts[ts.len() - 1]) > rest {
            arity(ts[ts.len() - 1])
        } else {
            rest
        }
    }
}

/// Whether typed buffers of `m` elements stay within the budget.
pub open spec fn affords_typed(w: WireView, m: nat) -> bool {
    &&& affords(w, m)
    &&& claim::<u16>(m, w.budget) is Ok
    &&& claim::<u32>(m, w.budget) is Ok
    &&& claim::<u128>(m, w.budget) is Ok
    &&& claim::<i16>(m, w.budget) is Ok
    &&& claim::<i32>(m, w.budget) is Ok
    &&& claim::<i64>(m, w.budget) is Ok
    &&& claim::<i128>(m, w.budget) is Ok
    &&& claim::<[u8; 16]>(m, w.budget) is Ok
    &&& claim::<[u8; 32]>(m, w.budget) is Ok
    &&& claim::<DecodedColumn>(m, w.budget) is Ok
}

proof fn lemma_affords_less(w: WireView, n: nat, m: nat)
    requires
        n <= m,
        affords_typed(w, m),
    ensures
        affords_typed(w, n),
{
    lemma_claim::<Vec<u8>>(n, m, w.budget);
    lemma_claim::<u64>(n, m, w.budget);
    lemma_claim::<u16>(n, m, w.budget);
    lemma_claim::<u32>(n, m, w.budget);
    lemma_claim::<u128>(n, m, w.budget);
    lemma_claim::<i16>(n, m, w.budget);
    lemma_claim::<i32>(n, m, w.budget);
    lemma_claim::<i64>(n, m, w.budget);
    lemma_claim::<i128>(n, m, w.budget);
    lemma_claim::<[u8; 16]>(n, m, w.budget);
    lemma_claim::<[u8; 32]>(n, m, w.budget);
    lemma_claim::<DecodedColumn>(n, m, w.budget);
}

// ---------------------------------------------------------------------------
// Scalars
// ---------------------------------------------------------------------------

/// All of `vals` take `width` bytes.
pub open spec fn all_raw(vals: Seq<Val>, width: nat) -> bool {
    forall|i: int|
        0 <= i < vals.len() ==> (#[trigger] vals[i]) is Raw && vals[i]->Raw_0.len() == width
}

proof fn lemma_raw_len(vals: Seq<Val>, width: nat)
    requires
        all_raw(vals, width),
    ensures
        flat(cells(vals)).len() == vals.len() * width,
    decreases vals.len(),
{
    if vals.len() > 0 {
        let before = vals.drop_last();
        assert(before =~= vals.subrange(0, vals.len() - 1));
        assert(vals[vals.len() - 1] is Raw);
        assert(all_raw(before, width));
        lemma_raw_len(before, width);
        lemma_flat_push(cells(before), cell(vals.last()));
        assert(vals.len() * width == before.len() * width + width) by (nonlinear_arith)
            requires
                vals.len() == before.len() + 1,
        ;
    } else {
        assert(0 * width == 0) by (nonlinear_arith);
    }
}

proof fn lemma_numbers_back<T: LeScalar>(d: Seq<u8>, pos: int, vals: Seq<Val>)
    requires
        all_raw(vals, T::spec_width()),
        stands_at(d, pos, flat(cells(vals))),
    ensures
        many(le_reader::<T>(d), pos, vals.len()) == Ok::<(Seq<T>, int), ErrorView>(
            (numbers::<T>(vals), pos + flat(cells(vals)).len()),
        ),
    decreases vals.len(),
{
    if vals.len() > 0 {
        let before = vals.drop_last();
        assert(before =~= vals.subrange(0, vals.len() - 1));
        assert(vals[vals.len() - 1] is Raw);
        assert(all_raw(before, T::spec_width()));
        lemma_flat_push(cells(before), cell(vals.last()));
        lemma_stands_split(d, pos, flat(cells(before)), cell(vals.last()));
        lemma_numbers_back::<T>(d, pos, before);
        assert(numbers::<T>(vals) =~= numbers::<T>(before).push(
            T::of_bits(le_nat(vals.last()->Raw_0)),
        ));
    } else {
        assert(numbers::<T>(vals) =~= seq![]);
    }
}

proof fn lemma_le_column_back<T: LeScalar>(w: WireView, pos: int, vals: Seq<Val>)
    requires
        all_raw(vals, T::spec_width()),
        stands_at(w.bytes, pos, flat(cells(vals))),
        w.bytes.len() <= usize::MAX,
        claim::<T>(vals.len(), w.budget) is Ok,
    ensures
        le_column_at::<T>(w, pos, vals.len()) == Ok::<(Seq<T>, int), ErrorView>(
            (numbers::<T>(vals), pos + flat(cells(vals)).len()),
        ),
{
    lemma_raw_len(vals, T::spec_width());
    lemma_numbers_back::<T>(w.bytes, pos, vals);
}

proof fn lemma_blocks_back(d: Seq<u8>, pos: int, vals: Seq<Val>, width: nat)
    requires
        all_raw(vals, width),
        stands_at(d, pos, flat(cells(vals))),
    ensures
        many(block_reader(d, width), pos, vals.len()) == Ok::<(Cells, int), ErrorView>(
            (raws(vals), pos + flat(cells(vals)).len()),
        ),
    decreases vals.len(),
{
    if vals.len() > 0 {
        let before = vals.drop_last();
        assert(before =~= vals.subrange(0, vals.len() - 1));
        assert(vals[vals.len() - 1] is Raw);
        assert(all_raw(before, width));
        lemma_flat_push(cells(before), cell(vals.last()));
        lemma_stands_split(d, pos, flat(cells(before)), cell(vals.last()));
        lemma_blocks_back(d, pos, before, width);
        assert(raws(vals) =~= raws(before).push(vals.last()->Raw_0));
    } else {
        assert(raws(vals) =~= seq![]);
    }
}

proof fn lemma_octets(vals: Seq<Val>)
    requires
        all_raw(vals, 1),
    ensures
        flat(cells(vals)) == octets(vals),
    decreases vals.len(),
{
    if vals.len() > 0 {
        let before = vals.drop_last();
        assert(before =~= vals.subrange(0, vals.len() - 1));
        assert(vals[vals.len() - 1] is Raw);
        assert(all_raw(before, 1));
        lemma_octets(before);
        lemma_flat_push(cells(before), cell(vals.last()));
        assert(octets(vals) =~= octets(before) + vals.last()->Raw_0);
    } else {
        assert(octets(vals) =~= seq![]);
    }
}

/// All of `vals` are strings within the size cap.
pub open spec fn all_text(vals: Seq<Val>) -> bool {
    forall|i: int|
        0 <= i < vals.len() ==> (#[trigger] vals[i]) is Text && vals[i]->Text_0.len()
            <= MAX_STRING_SIZE
}

proof fn lemma_texts_back(d: Seq<u8>, pos: int, vals: Seq<Val>)
    requires
        all_text(vals),
        stands_at(d, pos, flat(cells(vals))),
    ensures
        many(text_reader(d), pos, vals.len()) == Ok::<(Cells, int), ErrorView>(
            (texts(vals), pos + flat(cells(vals)).len()),
        ),
    decreases vals.len(),
{
    if vals.len() > 0 {
        let before = vals.drop_last();
        assert(before =~= vals.subrange(0, vals.len() - 1));
        assert(vals[vals.len() - 1] is Text);
        assert(all_text(before));
        lemma_flat_push(cells(before), cell(vals.last()));
        lemma_stands_split(d, pos, flat(cells(before)), cell(vals.last()));
        lemma_texts_back(d, pos, before);
        law_string_round_trip(d, pos + flat(cells(before)).len(), vals.last()->Text_0);
        assert(texts(vals) =~= texts(before).push(vals.last()->Text_0));
    } else {
        assert(texts(vals) =~= seq![]);
    }
}

/// A scalar column, or one of strings, decodes to the typed column of its
/// values.
#[verifier::rlimit(40)]
proof fn lemma_scalar_back(w: WireView, pos: int, vals: Seq<Val>, t: Ty, b: Seq<u8>)
    requires
        fixed_size(t) is Some || t is String || t is Json,
        !(t is BFloat16 || t is Time || t is Time64),
        wide(t),
        all_fit(vals, t),
        written_as(vals, t, b),
        stands_at(w.bytes, pos, b),
        w.bytes.len() <= usize::MAX,
        vals.len() <= usize::MAX,
        affords_typed(w, vals.len()),
    ensures
        scalar_at(w, pos, t, vals.len() as u64) == Some(
            Ok::<(Col, int), ErrorView>((scalar_col(vals, t), pos + b.len())),
        ),
{
    reveal(written_as);
    reveal(scalar_col);
    lemma_all_fit(vals, t);
    match fixed_size(t) {
        Some(size) => {
            assert forall|i: int| 0 <= i < vals.len() implies (#[trigger] vals[i]) is Raw
                && vals[i]->Raw_0.len() == size by {
                assert(fits(vals[i], t));
            }
            assert(all_raw(vals, size as nat));
            lemma_raw_len(vals, size as nat);
            if size == 1 {
                lemma_octets(vals);
            } else if size == 2 {
                lemma_le_column_back::<u16>(w, pos, vals);
                lemma_le_column_back::<i16>(w, pos, vals);
            } else if size == 4 {
                lemma_le_column_back::<u32>(w, pos, vals);
                lemma_le_column_back::<i32>(w, pos, vals);
            } else if size == 8 {
                lemma_le_column_back::<u64>(w, pos, vals);
                lemma_le_column_back::<i64>(w, pos, vals);
            } else if size == 16 {
                lemma_le_column_back::<u128>(w, pos, vals);
                lemma_le_column_back::<i128>(w, pos, vals);
                lemma_blocks_back(w.bytes, pos, vals, 16);
            } else if size == 32 {
                lemma_blocks_back(w.bytes, pos, vals, 32);
            }
            if let Ty::FixedString(width) = t {
                assert(width * vals.len() == vals.len() * width) by (nonlinear_arith);
            }
        },
        None => {
            assert forall|i: int| 0 <= i < vals.len() implies (#[trigger] vals[i]) is Text
                && vals[i]->Text_0.len() <= MAX_STRING_SIZE by {
                assert(fits(vals[i], t));
            }
            lemma_texts_back(w.bytes, pos, vals);
            if t is Json {
                let docs = texts(vals);
                assert forall|i: int| 0 <= i < docs.len() implies utf8_doc()(#[trigger] docs[i])
                    == Ok::<Seq<u8>, ErrorView>(docs[i]) by {
                    assert(fits(vals[i], t));
                }
                lemma_each_ok(docs, utf8_doc(), docs);
            }
        },
    }
}

// ---------------------------------------------------------------------------
// Composites
// ---------------------------------------------------------------------------

/// The offsets of lists depend on their lengths alone.
proof fn lemma_offsets_of_same<A, B>(a: Seq<Seq<A>>, b: Seq<Seq<B>>)
    requires
        a.len() == b.len(),
        forall|i: int| 0 <= i < a.len() ==> (#[trigger] a[i]).len() == b[i].len(),
    ensures
        offsets_of(a) == offsets_of(b),
{
    assert forall|i: int| 0 <= i < a.len() implies #[trigger] offsets_of(a)[i] == offsets_of(
        b,
    )[i] by {
        let x = a.take(i + 1);
        let y = b.take(i + 1);
        assert forall|k: int| 0 <= k < x.len() implies (#[trigger] x[k]).len() == y[k].len() by {
            assert(a[k].len() == b[k].len());
        }
        lemma_offsets_same(x, y);
    }
    assert(offsets_of(a) =~= offsets_of(b));
}

/// The offsets of lists never step backwards.
proof fn lemma_rising_back<T>(d: Seq<u8>, pos: int, lists: Seq<Seq<T>>, what: Seq<char>)
    requires
        stands_at(d, pos, offset_bytes(lists)),
        flat(lists).len() <= u64::MAX,
    ensures
        rising_at(d, pos, lists.len(), what) == Ok::<(Seq<u64>, int), ErrorView>(
            (offsets_of(lists), pos + offset_bytes(lists).len()),
        ),
        last_or_zero(offsets_of(lists)) == flat(lists).len(),
    decreases lists.len(),
{
    if lists.len() > 0 {
        let before = lists.drop_last();
        let n = flat(lists).len();
        assert(before =~= lists.take(lists.len() - 1));
        assert(lists.take(lists.len() as int) =~= lists);
        lemma_flat_grows(lists, lists.len() - 1, lists.len() as int);
        lemma_stands_split(d, pos, offset_bytes(before), le_bytes(n, 8));
        lemma_rising_back(d, pos, before, what);
        lemma_pow256();
        law_le_round_trip(n, 8);
        let p = pos + offset_bytes(before).len();
        assert(u64_at(d, p) == Ok::<(u64, int), ErrorView>((n as u64, p + 8)));
        assert forall|i: int| 0 <= i < before.len() implies #[trigger] offsets_of(before)[i]
            == offsets_of(lists)[i] by {
            assert(before.take(i + 1) =~= lists.take(i + 1));
        }
        assert(offsets_of(lists) =~= offsets_of(before).push(n as u64));
    } else {
        assert(offsets_of(lists) =~= seq![]);
    }
}

proof fn lemma_index_numbers<T: LeScalar>(d: Seq<u8>, pos: int, indices: Seq<nat>)
    requires
        stands_at(d, pos, index_bytes(indices, T::spec_width())),
        forall|i: int| 0 <= i < indices.len() ==> (#[trigger] indices[i]) < pow256(T::spec_width()),
    ensures
        many(le_reader::<T>(d), pos, indices.len()) == Ok::<(Seq<T>, int), ErrorView>(
            (
                indices.map_values(|i: nat| T::of_bits(i)),
                pos + index_bytes(indices, T::spec_width()).len(),
            ),
        ),
        index_bytes(indices, T::spec_width()).len() == indices.len() * T::spec_width(),
    decreases indices.len(),
{
    let width = T::spec_width();
    if indices.len() > 0 {
        let before = indices.drop_last();
        let n = indices.last();
        assert forall|i: int| 0 <= i < before.len() implies (#[trigger] before[i]) < pow256(
            width,
        ) by {
            assert(indices[i] < pow256(width));
        }
        assert(indices[indices.len() - 1] < pow256(width));
        lemma_stands_split(d, pos, index_bytes(before, width), le_bytes(n, width));
        lemma_index_numbers::<T>(d, pos, before);
        law_le_round_trip(n, width);
        assert(indices.map_values(|i: nat| T::of_bits(i)) =~= before.map_values(
            |i: nat| T::of_bits(i),
        ).push(T::of_bits(n)));
        assert(indices.len() * width == before.len() * width + width) by (nonlinear_arith)
            requires
                indices.len() == before.len() + 1,
        ;
    } else {
        assert(indices.map_values(|i: nat| T::of_bits(i)) =~= seq![]);
        assert(0 * width == 0) by (nonlinear_arith);
    }
}

proof fn lemma_index_octets(indices: Seq<nat>)
    requires
        forall|i: int| 0 <= i < indices.len() ==> (#[trigger] indices[i]) < 0x100,
    ensures
        index_bytes(indices, 1) == indices.map_values(|i: nat| i as u8),
    decreases indices.len(),
{
    if indices.len() > 0 {
        let before = indices.drop_last();
        let n = indices.last();
        assert forall|i: int| 0 <= i < before.len() implies (#[trigger] before[i]) < 0x100 by {
            assert(indices[i] < 0x100);
        }
        assert(indices[indices.len() - 1] < 0x100);
        lemma_index_octets(before);
        assert(le_bytes(n / 256, 0) =~= seq![]);
        assert(le_bytes(n, 1) =~= seq![n as u8]);
        assert(indices.map_values(|i: nat| i as u8) =~= before.map_values(|i: nat| i as u8).push(
            n as u8,
        ));
    } else {
        assert(indices.map_values(|i: nat| i as u8) =~= seq![]);
    }
}

/// The index column of a `LowCardinality` column decodes to its indices.
proof fn lemma_index_column_back(w: WireView, pos: int, indices: Seq<nat>, n: nat)
    requires
        stands_at(w.bytes, pos, index_bytes(indices, index_width(n))),
        forall|i: int| 0 <= i < indices.len() ==> (#[trigger] indices[i]) < pow256(index_width(n)),
        w.bytes.len() <= usize::MAX,
        affords_typed(w, indices.len()),
    ensures
        index_column_at(w, pos, indices.len(), lc_state(n)) == Ok::<(Col, int), ErrorView>(
            (index_col(indices, n), pos + index_bytes(indices, index_width(n)).len()),
        ),
{
    lemma_pow256();
    if n <= 0x100 {
        assert forall|i: int| 0 <= i < indices.len() implies (#[trigger] indices[i]) < 0x100 by {
            assert(indices[i] < pow256(index_width(n)));
        }
        lemma_index_octets(indices);
    } else if n <= 0x1_0000 {
        assert forall|i: int| 0 <= i < indices.len() implies (#[trigger] indices[i]) < pow256(
            u16::spec_width(),
        ) by {
            assert(indices[i] < pow256(index_width(n)));
        }
        lemma_index_numbers::<u16>(w.bytes, pos, indices);
        assert(indices.map_values(|i: nat| u16::of_bits(i)) =~= indices.map_values(
            |i: nat| i as u16,
        ));
    } else {
        assert forall|i: int| 0 <= i < indices.len() implies (#[trigger] indices[i]) < pow256(
            u32::spec_width(),
        ) by {
            assert(indices[i] < pow256(index_width(n)));
        }
        lemma_index_numbers::<u32>(w.bytes, pos, indices);
        assert(indices.map_values(|i: nat| u32::of_bits(i)) =~= indices.map_values(
            |i: nat| i as u32,
        ));
    }
}

/// The column at `pos` decodes to `col`, and ends at `end`.
#[verifier::opaque]
pub open spec fn decodes_to(
    w: WireView,
    pos: int,
    t: Ty,
    rows: u64,
    depth: nat,
    col: Col,
    end: int,
) -> bool {
    decode_at(w, pos, t, rows, depth) == Ok::<(Col, int), ErrorView>((col, end))
}

/// The column of `vals` at `pos` decodes to their typed column.
pub open spec fn decodes_back(
    w: WireView,
    pos: int,
    vals: Seq<Val>,
    t: Ty,
    depth: nat,
    len: nat,
) -> bool {
    decodes_to(w, pos, t, vals.len() as u64, depth, col_of(vals, t), pos + len)
}

proof fn lemma_nullable_unfolds(
    w: WireView,
    pos: int,
    x: Ty,
    rows: u64,
    depth: nat,
    mask: Seq<u8>,
    child: (Col, int),
)
    requires
        rows <= usize::MAX,
        depth <= 32,
        depth > 0 || rows > 0,
        mask.len() == rows,
        stands_at(w.bytes, pos, mask),
        decodes_to(w, pos + rows, x, rows, depth + 1, child.0, child.1),
    ensures
        decodes_to(
            w,
            pos,
            Ty::Nullable(Box::new(x)),
            rows,
            depth,
            (Col::Nullable { mask, child: Box::new(child.0) }),
            child.1,
        ),
{
    reveal(decodes_to);
}

proof fn lemma_nullable_decodes(
    w: WireView,
    pos: int,
    vals: Seq<Val>,
    x: Ty,
    depth: nat,
    len: nat,
)
    requires
        all_fit(vals, Ty::Nullable(Box::new(x))),
        vals.len() <= usize::MAX,
        depth <= 32,
        depth > 0 || vals.len() > 0,
        stands_at(w.bytes, pos, null_flags(cells(vals))),
        decodes_back(w, pos + vals.len(), slot_vals(vals, x), x, depth + 1, len),
    ensures
        decodes_back(w, pos, vals, Ty::Nullable(Box::new(x)), depth, vals.len() + len),
{
    lemma_cells(vals);
    assert(slot_vals(vals, x).len() == vals.len());
    lemma_nullable_unfolds(
        w,
        pos,
        x,
        vals.len() as u64,
        depth,
        null_flags(cells(vals)),
        (col_of(slot_vals(vals, x), x), pos + vals.len() + len),
    );
}

proof fn lemma_array_unfolds(
    w: WireView,
    pos: int,
    x: Ty,
    rows: u64,
    depth: nat,
    offsets: (Seq<u64>, int),
    child: (Col, int),
)
    requires
        rows <= usize::MAX,
        depth <= 32,
        depth > 0 || rows > 0,
        offsets_at(w, pos, rows as nat, "Array"@) == Ok::<(Seq<u64>, int), ErrorView>(offsets),
        decodes_to(w, offsets.1, x, last_or_zero(offsets.0), depth + 1, child.0, child.1),
    ensures
        decodes_to(
            w,
            pos,
            Ty::Array(Box::new(x)),
            rows,
            depth,
            (Col::Array { offsets: offsets.0, child: Box::new(child.0) }),
            child.1,
        ),
{
    reveal(decodes_to);
}

proof fn lemma_map_unfolds(
    w: WireView,
    pos: int,
    k: Ty,
    v: Ty,
    rows: u64,
    depth: nat,
    offsets: (Seq<u64>, int),
    keys: (Col, int),
    values: (Col, int),
)
    requires
        rows <= usize::MAX,
        depth <= 32,
        depth > 0 || rows > 0,
        offsets_at(w, pos, rows as nat, "Map"@) == Ok::<(Seq<u64>, int), ErrorView>(offsets),
        decodes_to(w, offsets.1, k, last_or_zero(offsets.0), depth + 1, keys.0, keys.1),
        decodes_to(w, keys.1, v, last_or_zero(offsets.0), depth + 1, values.0, values.1),
    ensures
        decodes_to(
            w,
            pos,
            Ty::Mapping(Box::new(k), Box::new(v)),
            rows,
            depth,
            (Col::Mapping {
                offsets: offsets.0,
                keys: Box::new(keys.0),
                values: Box::new(values.0),
            }),
            values.1,
        ),
{
    reveal(decodes_to);
}

proof fn lemma_low_cardinality_unfolds(
    w: WireView,
    pos: int,
    x: Ty,
    rows: u64,
    depth: nat,
    flags: u64,
    size: u64,
    dict: (Col, int),
)
    requires
        rows <= usize::MAX,
        depth <= 32,
        depth > 0 || rows > 0,
        lc_head_at(w, pos) == Ok::<((u64, u64), int), ErrorView>(((flags, size), pos + 16)),
        decodes_to(w, pos + 16, dict_type(x), size, depth + 1, dict.0, dict.1),
        lc_tail_at(w, dict.1, rows, flags, dict.0, x is Nullable) is Ok,
    ensures
        decodes_to(
            w,
            pos,
            Ty::LowCardinality(Box::new(x)),
            rows,
            depth,
            lc_tail_at(w, dict.1, rows, flags, dict.0, x is Nullable)->Ok_0.0,
            lc_tail_at(w, dict.1, rows, flags, dict.0, x is Nullable)->Ok_0.1,
        ),
{
    reveal(decodes_to);
}

proof fn lemma_array_offsets(w: WireView, pos: int, vals: Seq<Val>, x: Ty)
    requires
        all_fit(vals, Ty::Array(Box::new(x))),
        flat(lists_of(vals)).len() <= usize::MAX,
        claim::<u64>(vals.len(), w.budget) is Ok,
        stands_at(w.bytes, pos, offset_bytes(list_cells(vals))),
    ensures
        offsets_at(w, pos, vals.len(), "Array"@) == Ok::<(Seq<u64>, int), ErrorView>(
            (offsets_of(lists_of(vals)), pos + offset_bytes(list_cells(vals)).len()),
        ),
        last_or_zero(offsets_of(lists_of(vals))) == flat(lists_of(vals)).len(),
{
    let a = list_cells(vals);
    let l = lists_of(vals);
    assert forall|i: int| 0 <= i < a.len() implies (#[trigger] a[i]).len() == l[i].len() by {
        lemma_cells(l[i]);
    }
    lemma_offsets_of_same(a, l);
    lemma_offsets_same(a, l);
    lemma_rising_back(w.bytes, pos, a, "Array"@);
}

proof fn lemma_map_offsets(w: WireView, pos: int, vals: Seq<Val>)
    requires
        flat(pairs_of(vals)).len() <= usize::MAX,
        claim::<u64>(vals.len(), w.budget) is Ok,
        stands_at(w.bytes, pos, offset_bytes(joined_entries(vals))),
    ensures
        offsets_at(w, pos, vals.len(), "Map"@) == Ok::<(Seq<u64>, int), ErrorView>(
            (offsets_of(pairs_of(vals)), pos + offset_bytes(joined_entries(vals)).len()),
        ),
        last_or_zero(offsets_of(pairs_of(vals))) == flat(pairs_of(vals)).len(),
{
    let a = joined_entries(vals);
    let l = pairs_of(vals);
    assert forall|i: int| 0 <= i < a.len() implies (#[trigger] a[i]).len() == l[i].len() by {
        lemma_entry_cells(l[i]);
    }
    lemma_offsets_of_same(a, l);
    lemma_offsets_same(a, l);
    lemma_rising_back(w.bytes, pos, a, "Map"@);
}

proof fn lemma_array_decodes(
    w: WireView,
    pos: int,
    vals: Seq<Val>,
    x: Ty,
    depth: nat,
    len: nat,
)
    requires
        all_fit(vals, Ty::Array(Box::new(x))),
        vals.len() <= usize::MAX,
        flat(lists_of(vals)).len() <= usize::MAX,
        depth <= 32,
        depth > 0 || vals.len() > 0,
        claim::<u64>(vals.len(), w.budget) is Ok,
        stands_at(w.bytes, pos, offset_bytes(list_cells(vals))),
        decodes_back(
            w,
            pos + offset_bytes(list_cells(vals)).len(),
            flat(lists_of(vals)),
            x,
            depth + 1,
            len,
        ),
    ensures
        decodes_back(
            w,
            pos,
            vals,
            Ty::Array(Box::new(x)),
            depth,
            offset_bytes(list_cells(vals)).len() + len,
        ),
{
    let a = list_cells(vals);
    let l = lists_of(vals);
    let items = flat(l);
    let p = pos + offset_bytes(a).len();
    lemma_array_offsets(w, pos, vals, x);
    lemma_array_unfolds(
        w,
        pos,
        x,
        vals.len() as u64,
        depth,
        (offsets_of(l), p),
        (col_of(items, x), p + len),
    );
}

proof fn lemma_map_decodes(
    w: WireView,
    pos: int,
    vals: Seq<Val>,
    k: Ty,
    v: Ty,
    depth: nat,
    len1: nat,
    len2: nat,
)
    requires
        all_fit(vals, Ty::Mapping(Box::new(k), Box::new(v))),
        vals.len() <= usize::MAX,
        flat(pairs_of(vals)).len() <= usize::MAX,
        depth <= 32,
        depth > 0 || vals.len() > 0,
        claim::<u64>(vals.len(), w.budget) is Ok,
        stands_at(w.bytes, pos, offset_bytes(joined_entries(vals))),
        decodes_back(
            w,
            pos + offset_bytes(joined_entries(vals)).len(),
            key_vals(flat(pairs_of(vals))),
            k,
            depth + 1,
            len1,
        ),
        decodes_back(
            w,
            pos + offset_bytes(joined_entries(vals)).len() + len1,
            value_vals(flat(pairs_of(vals))),
            v,
            depth + 1,
            len2,
        ),
    ensures
        decodes_back(
            w,
            pos,
            vals,
            Ty::Mapping(Box::new(k), Box::new(v)),
            depth,
            offset_bytes(joined_entries(vals)).len() + len1 + len2,
        ),
{
    let a = joined_entries(vals);
    let l = pairs_of(vals);
    let all = flat(l);
    let p = pos + offset_bytes(a).len();
    lemma_map_offsets(w, pos, vals);
    assert(key_vals(all).len() == all.len());
    assert(value_vals(all).len() == all.len());
    lemma_map_unfolds(
        w,
        pos,
        k,
        v,
        vals.len() as u64,
        depth,
        (offsets_of(l), p),
        (col_of(key_vals(all), k), p + len1),
        (col_of(value_vals(all), v), p + len1 + len2),
    );
}

proof fn lemma_low_cardinality_decodes(
    w: WireView,
    pos: int,
    vals: Seq<Val>,
    x: Ty,
    depth: nat,
    b: Seq<u8>,
    f: LowCardinalityForm,
)
    requires
        is_lc_form(f, vals, x, b),
        vals.len() <= usize::MAX,
        depth <= 32,
        depth > 0 || vals.len() > 0,
        w.bytes.len() <= usize::MAX,
        stands_at(w.bytes, pos, b),
        affords_typed(w, vals.len()),
        decodes_back(w, pos + 16, f.dict_vals, dict_type(x), depth + 1, f.keys.len()),
    ensures
        decodes_back(w, pos, vals, Ty::LowCardinality(Box::new(x)), depth, b.len()),
{
    let state = lc_state(f.dict.len());
    let width = index_width(f.dict.len());
    let head = le_bytes(state as nat, 8);
    let size = le_bytes(f.dict.len(), 8);
    let count = le_bytes(f.indices.len(), 8);
    let tail = index_bytes(f.indices, width);
    lemma_pow256();
    lemma_cells(f.dict_vals);
    lemma_stands_split(w.bytes, pos, head + size + f.keys + count, tail);
    lemma_stands_split(w.bytes, pos, head + size + f.keys, count);
    lemma_stands_split(w.bytes, pos, head + size, f.keys);
    lemma_stands_split(w.bytes, pos, head, size);
    law_le_round_trip(state as nat, 8);
    law_le_round_trip(f.dict.len(), 8);
    law_le_round_trip(f.indices.len(), 8);
    assert(u64_at(w.bytes, pos) == Ok::<(u64, int), ErrorView>((state, pos + 8)));
    assert(u64_at(w.bytes, pos + 8) == Ok::<(u64, int), ErrorView>(
        (f.dict.len() as u64, pos + 16),
    ));
    let p = pos + 16 + f.keys.len();
    assert(u64_at(w.bytes, p) == Ok::<(u64, int), ErrorView>((f.indices.len() as u64, p + 8)));
    assert(lc_head_at(w, pos) == Ok::<((u64, u64), int), ErrorView>(
        ((state, f.dict.len() as u64), pos + 16),
    ));
    assert forall|i: int| 0 <= i < f.indices.len() implies (#[trigger] f.indices[i]) < pow256(
        width,
    ) by {}
    lemma_index_column_back(w, p + 8, f.indices, f.dict.len());
    let dict = col_of(f.dict_vals, dict_type(x));
    assert(lc_tail_at(w, p, vals.len() as u64, state, dict, x is Nullable) == Ok::<
        (Col, int),
        ErrorView,
    >((col_of(vals, Ty::LowCardinality(Box::new(x))), pos + b.len())));
    lemma_low_cardinality_unfolds(
        w,
        pos,
        x,
        vals.len() as u64,
        depth,
        state,
        f.dict.len() as u64,
        (dict, p),
    );
}

/// The columns at `pos` decode to the typed columns of the fields of the rows.
#[verifier::opaque]
pub open spec fn fields_decode_back(
    w: WireView,
    pos: int,
    vals: Seq<Val>,
    ts: Seq<Ty>,
    depth: nat,
    len: nat,
) -> bool {
    decode_fields_at(w, pos, ts, vals.len() as u64, depth) == Ok::<(Seq<Col>, int), ErrorView>(
        (field_cols(vals, ts), pos + len),
    )
}

proof fn lemma_push_field_decodes(
    w: WireView,
    pos: int,
    vals: Seq<Val>,
    ts: Seq<Ty>,
    depth: nat,
    len1: nat,
    len2: nat,
)
    requires
        ts.len() > 0,
        fields_decode_back(w, pos, vals, ts.subrange(0, ts.len() - 1), depth, len1),
        decodes_back(
            w,
            pos + len1,
            field_vals(vals, ts.len() - 1),
            ts[ts.len() - 1],
            depth,
            len2,
        ),
    ensures
        fields_decode_back(w, pos, vals, ts, depth, len1 + len2),
{
    reveal(decodes_to);
    reveal(fields_decode_back);
    assert(field_vals(vals, ts.len() - 1).len() == vals.len());
}

proof fn lemma_tuple_decodes(
    w: WireView,
    pos: int,
    vals: Seq<Val>,
    ts: Seq<Ty>,
    depth: nat,
    len: nat,
)
    requires
        vals.len() <= usize::MAX,
        depth <= 32,
        depth > 0 || vals.len() > 0,
        claim::<DecodedColumn>(ts.len(), w.budget) is Ok,
        fields_decode_back(w, pos, vals, ts, depth + 1, len),
    ensures
        decodes_back(w, pos, vals, Ty::Tuple(ts), depth, len),
{
    reveal(decodes_to);
    reveal(fields_decode_back);
}

/// The cells of a column without a typed form.
proof fn lemma_untyped_cells(w: WireView, pos: int, vals: Seq<Val>, t: Ty, b: Seq<u8>)
    requires
        t is BFloat16 || t is Time || t is Time64,
        all_fit(vals, t),
        written_as(vals, t, b),
        stands_at(w.bytes, pos, b),
        total(vals) <= usize::MAX,
        affords(w, total(vals)),
    ensures
        column_at(w, pos, t, vals.len() as u64) == Ok::<(Seq<Seq<u8>>, int), ErrorView>(
            (cells(vals), pos + b.len()),
        ),
{
    lemma_total_len(vals);
    assert(col_bytes(cells(vals), t) == Ok::<Seq<u8>, ErrorView>(b)) by {
        reveal(written_as);
    }
    if vals.len() > 0 {
        assert(prefixes(t) + b =~= b);
        law_cells_round_trip(w, pos, vals, t, b);
    } else {
        assert(cells(vals) =~= seq![]);
        assert(b =~= seq![]);
    }
}

/// A column without a typed form is passed over.
#[verifier::rlimit(40)]
proof fn lemma_untyped_back(w: WireView, pos: int, vals: Seq<Val>, t: Ty, depth: nat, b: Seq<u8>)
    requires
        t is BFloat16 || t is Time || t is Time64,
        all_fit(vals, t),
        written_as(vals, t, b),
        stands_at(w.bytes, pos, b),
        depth <= 32,
        depth > 0 || vals.len() > 0,
        total(vals) <= usize::MAX,
        affords(w, total(vals)),
    ensures
        decodes_back(w, pos, vals, t, depth, b.len()),
{
    lemma_total_len(vals);
    lemma_untyped_cells(w, pos, vals, t, b);
    let rows = vals.len() as u64;
    let col = Col::Unsupported(debug_text(t));
    assert(scalar_at(w, pos, t, rows) == Some(
        Ok::<(Col, int), ErrorView>((col, pos + b.len())),
    ));
    assert(col_of(vals, t) == col) by {
        reveal(scalar_col);
    }
    reveal(decodes_to);
}

proof fn lemma_scalar_decodes(
    w: WireView,
    pos: int,
    vals: Seq<Val>,
    t: Ty,
    depth: nat,
    len: nat,
)
    requires
        fixed_size(t) is Some || t is String || t is Json,
        vals.len() <= usize::MAX,
        depth <= 32,
        depth > 0 || vals.len() > 0,
        scalar_at(w, pos, t, vals.len() as u64) == Some(
            Ok::<(Col, int), ErrorView>((scalar_col(vals, t), pos + len)),
        ),
    ensures
        decodes_back(w, pos, vals, t, depth, len),
{
    reveal(decodes_to);
}

/// Values that were written as a column decode to their typed column.
#[verifier::rlimit(40)]
proof fn lemma_decode_back(
    w: WireView,
    pos: int,
    vals: Seq<Val>,
    t: Ty,
    depth: nat,
    m: nat,
    b: Seq<u8>,
)
    requires
        typed(t),
        all_fit(vals, t),
        written_as(vals, t, b),
        stands_at(w.bytes, pos, b),
        depth + nesting(t) <= 32,
        total(vals) + nesting(t) <= m <= usize::MAX,
        arity(t) <= m,
        affords_typed(w, m),
        w.bytes.len() <= usize::MAX,
        depth > 0 || vals.len() > 0,
    ensures
        decodes_back(w, pos, vals, t, depth, b.len()),
    decreases t, 1nat,
{
    lemma_total_len(vals);
    lemma_affords_less(w, vals.len(), m);
    lemma_affords_less(w, total(vals), m);
    if t is BFloat16 || t is Time || t is Time64 {
        lemma_untyped_back(w, pos, vals, t, depth, b);
    } else if fixed_size(t) is Some || t is String || t is Json {
        lemma_scalar_back(w, pos, vals, t, b);
        lemma_scalar_decodes(w, pos, vals, t, depth, b.len());
    } else {
        match t {
            Ty::Nullable(x) => {
                lemma_decode_nullable(w, pos, vals, *x, depth, m, b);
            },
            Ty::LowCardinality(x) => {
                lemma_decode_low_cardinality(w, pos, vals, *x, depth, m, b);
            },
            Ty::Array(x) => {
                lemma_decode_array(w, pos, vals, *x, depth, m, b);
            },
            Ty::Mapping(k, v) => {
                lemma_decode_map(w, pos, vals, t, depth, m, b);
            },
            Ty::Tuple(ts) => {
                lemma_decode_tuple(w, pos, vals, ts, depth, m, b);
            },
            _ => {},
        }
    }
}

proof fn lemma_decode_nullable(
    w: WireView,
    pos: int,
    vals: Seq<Val>,
    x: Ty,
    depth: nat,
    m: nat,
    b: Seq<u8>,
)
    requires
        typed(Ty::Nullable(Box::new(x))),
        all_fit(vals, Ty::Nullable(Box::new(x))),
        written_as(vals, Ty::Nullable(Box::new(x)), b),
        stands_at(w.bytes, pos, b),
        depth + nesting(Ty::Nullable(Box::new(x))) <= 32,
        total(vals) + nesting(Ty::Nullable(Box::new(x))) <= m <= usize::MAX,
        arity(Ty::Nullable(Box::new(x))) <= m,
        affords_typed(w, m),
        w.bytes.len() <= usize::MAX,
        depth > 0 || vals.len() > 0,
    ensures
        decodes_back(w, pos, vals, Ty::Nullable(Box::new(x)), depth, b.len()),
    decreases x, 2nat,
{
    let n = vals.len();
    lemma_total_len(vals);
    let b2 = lemma_nullable_written(vals, x, b);
    lemma_nullable_layout(vals, x);
    lemma_stands_split(w.bytes, pos, null_flags(cells(vals)), b2);
    lemma_decode_back(w, pos + n, slot_vals(vals, x), x, depth + 1, m, b2);
    lemma_nullable_decodes(w, pos, vals, x, depth, b2.len());
}

proof fn lemma_decode_low_cardinality(
    w: WireView,
    pos: int,
    vals: Seq<Val>,
    x: Ty,
    depth: nat,
    m: nat,
    b: Seq<u8>,
)
    requires
        typed(Ty::LowCardinality(Box::new(x))),
        all_fit(vals, Ty::LowCardinality(Box::new(x))),
        written_as(vals, Ty::LowCardinality(Box::new(x)), b),
        stands_at(w.bytes, pos, b),
        depth + nesting(Ty::LowCardinality(Box::new(x))) <= 32,
        total(vals) + nesting(Ty::LowCardinality(Box::new(x))) <= m <= usize::MAX,
        arity(Ty::LowCardinality(Box::new(x))) <= m,
        affords_typed(w, m),
        w.bytes.len() <= usize::MAX,
        depth > 0 || vals.len() > 0,
    ensures
        decodes_back(w, pos, vals, Ty::LowCardinality(Box::new(x)), depth, b.len()),
    decreases x, 2nat,
{
    lemma_total_len(vals);
    lemma_affords_less(w, vals.len(), m);
    let f = lemma_low_cardinality_written(vals, x, b);
    lemma_lc_keys_stand(w.bytes, pos, f, vals, x, b);
    assert(nesting(dict_type(x)) <= nesting(x));
    assert(arity(dict_type(x)) <= arity(x));
    assert(wide(x));
    assert(wide(dict_type(x)));
    lemma_decode_back(w, pos + 16, f.dict_vals, dict_type(x), depth + 1, m, f.keys);
    lemma_low_cardinality_decodes(w, pos, vals, x, depth, b, f);
}

proof fn lemma_decode_array(
    w: WireView,
    pos: int,
    vals: Seq<Val>,
    x: Ty,
    depth: nat,
    m: nat,
    b: Seq<u8>,
)
    requires
        typed(Ty::Array(Box::new(x))),
        all_fit(vals, Ty::Array(Box::new(x))),
        written_as(vals, Ty::Array(Box::new(x)), b),
        stands_at(w.bytes, pos, b),
        depth + nesting(Ty::Array(Box::new(x))) <= 32,
        total(vals) + nesting(Ty::Array(Box::new(x))) <= m <= usize::MAX,
        arity(Ty::Array(Box::new(x))) <= m,
        affords_typed(w, m),
        w.bytes.len() <= usize::MAX,
        depth > 0 || vals.len() > 0,
    ensures
        decodes_back(w, pos, vals, Ty::Array(Box::new(x)), depth, b.len()),
    decreases x, 2nat,
{
    lemma_total_len(vals);
    lemma_affords_less(w, vals.len(), m);
    let b2 = lemma_array_written(vals, x, b);
    lemma_array_layout(vals, x);
    let head = offset_bytes(list_cells(vals));
    let items = flat(lists_of(vals));
    lemma_total_len(items);
    lemma_stands_split(w.bytes, pos, head, b2);
    lemma_decode_back(w, pos + head.len(), items, x, depth + 1, m, b2);
    lemma_array_decodes(w, pos, vals, x, depth, b2.len());
}

proof fn lemma_decode_map(
    w: WireView,
    pos: int,
    vals: Seq<Val>,
    t: Ty,
    depth: nat,
    m: nat,
    b: Seq<u8>,
)
    requires
        t is Mapping,
        typed(t),
        all_fit(vals, t),
        written_as(vals, t, b),
        stands_at(w.bytes, pos, b),
        depth + nesting(t) <= 32,
        total(vals) + nesting(t) <= m <= usize::MAX,
        arity(t) <= m,
        affords_typed(w, m),
        w.bytes.len() <= usize::MAX,
        depth > 0 || vals.len() > 0,
    ensures
        decodes_back(w, pos, vals, t, depth, b.len()),
    decreases t, 0nat,
{
    let k = *t->Mapping_0;
    let v = *t->Mapping_1;
    lemma_total_len(vals);
    lemma_affords_less(w, vals.len(), m);
    let (b1, b2) = lemma_map_written(vals, k, v, b);
    lemma_map_layout(vals, k, v);
    let head = offset_bytes(joined_entries(vals));
    let all = flat(pairs_of(vals));
    lemma_total_len(key_vals(all));
    lemma_stands_split(w.bytes, pos, head + b1, b2);
    lemma_stands_split(w.bytes, pos, head, b1);
    let p = pos + head.len();
    lemma_decode_back(w, p, key_vals(all), k, depth + 1, m, b1);
    lemma_decode_back(w, p + b1.len(), value_vals(all), v, depth + 1, m, b2);
    lemma_map_decodes(w, pos, vals, k, v, depth, b1.len(), b2.len());
}

proof fn lemma_decode_tuple(
    w: WireView,
    pos: int,
    vals: Seq<Val>,
    ts: Seq<Ty>,
    depth: nat,
    m: nat,
    b: Seq<u8>,
)
    requires
        typed(Ty::Tuple(ts)),
        all_fit(vals, Ty::Tuple(ts)),
        written_as(vals, Ty::Tuple(ts), b),
        stands_at(w.bytes, pos, b),
        depth + nesting(Ty::Tuple(ts)) <= 32,
        total(vals) + nesting(Ty::Tuple(ts)) <= m <= usize::MAX,
        arity(Ty::Tuple(ts)) <= m,
        affords_typed(w, m),
        w.bytes.len() <= usize::MAX,
        depth > 0 || vals.len() > 0,
    ensures
        decodes_back(w, pos, vals, Ty::Tuple(ts), depth, b.len()),
    decreases ts, 2nat,
{
    lemma_total_len(vals);
    lemma_affords_less(w, ts.len(), m);
    lemma_tuple_written(vals, ts, b);
    lemma_tuple_layout(vals, ts);
    lemma_decode_fields(w, pos, vals, ts, depth + 1, m, b);
    lemma_tuple_decodes(w, pos, vals, ts, depth, b.len());
}

proof fn lemma_decode_fields(
    w: WireView,
    pos: int,
    vals: Seq<Val>,
    ts: Seq<Ty>,
    depth: nat,
    m: nat,
    b: Seq<u8>,
)
    requires
        all_typed(ts),
        rows_fit(vals, ts),
        fields_written_as(vals, ts, b),
        stands_at(w.bytes, pos, b),
        0 < depth,
        depth + deepest(ts) <= 32,
        total(vals) + deepest(ts) <= m <= usize::MAX,
        field_arity(ts) <= m,
        affords_typed(w, m),
        w.bytes.len() <= usize::MAX,
    ensures
        fields_decode_back(w, pos, vals, ts, depth, b.len()),
    decreases ts, 0nat,
{
    if ts.len() > 0 {
        let n = ts.len() - 1;
        let (b1, b2) = lemma_last_field_written(vals, ts, b);
        lemma_stands_split(w.bytes, pos, b1, b2);
        lemma_decode_fields(w, pos, vals, ts.subrange(0, n), depth, m, b1);
        lemma_decode_back(
            w,
            pos + b1.len(),
            field_vals(vals, n as int),
            ts[n as int],
            depth,
            m,
            b2,
        );
        lemma_push_field_decodes(w, pos, vals, ts, depth, b1.len(), b2.len());
    } else {
        reveal(fields_decode_back);
        reveal(fields_written_as);
    }
}

// ---------------------------------------------------------------------------
// Prefixes
// ---------------------------------------------------------------------------

proof fn lemma_decode_prefixes_back(w: WireView, pos: int, t: Ty, depth: nat)
    requires
        typed(t),
        stands_at(w.bytes, pos, prefixes(t)),
        depth + nesting(t) <= 32,
    ensures
        decode_prefixes_at(w, pos, t, depth) == Ok::<((), int), ErrorView>(
            ((), pos + prefixes(t).len()),
        ),
    decreases t,
{
    match t {
        Ty::LowCardinality(_) => {
            lemma_le_bytes_len(1, 8);
        },
        Ty::Nullable(x) => {
            lemma_decode_prefixes_back(w, pos, *x, depth + 1);
        },
        Ty::Array(x) => {
            lemma_decode_prefixes_back(w, pos, *x, depth + 1);
        },
        Ty::Mapping(k, v) => {
            lemma_stands_split(w.bytes, pos, prefixes(*k), prefixes(*v));
            lemma_decode_prefixes_back(w, pos, *k, depth + 1);
            lemma_decode_prefixes_back(w, pos + prefixes(*k).len(), *v, depth + 1);
        },
        Ty::Tuple(ts) => {
            lemma_decode_field_prefixes_back(w, pos, ts, depth + 1);
        },
        _ => {},
    }
}

proof fn lemma_decode_field_prefixes_back(w: WireView, pos: int, ts: Seq<Ty>, depth: nat)
    requires
        all_typed(ts),
        stands_at(w.bytes, pos, field_prefixes(ts)),
        depth + deepest(ts) <= 32,
    ensures
        decode_field_prefixes_at(w, pos, ts, depth) == Ok::<((), int), ErrorView>(
            ((), pos + field_prefixes(ts).len()),
        ),
    decreases ts,
{
    if ts.len() > 0 {
        let n = ts.len() - 1;
        let before = ts.subrange(0, n);
        lemma_stands_split(w.bytes, pos, field_prefixes(before), prefixes(ts[n as int]));
        lemma_decode_field_prefixes_back(w, pos, before, depth);
        lemma_decode_prefixes_back(w, pos + field_prefixes(before).len(), ts[n as int], depth);
    }
}

/// Decoding a column inverts encoding it: where the encoded form of values
/// stands, prefixes first, the typed column of those values is decoded and all
/// of the form is consumed.
pub proof fn law_column_round_trip(
    w: WireView,
    pos: int,
    vals: Seq<Val>,
    t: Ty,
    m: nat,
    b: Seq<u8>,
)
    requires
        typed(t),
        nesting(t) <= MAX_DECODE_DEPTH,
        vals.len() > 0,
        all_fit(vals, t),
        col_bytes(cells(vals), t) == Ok::<Seq<u8>, ErrorView>(b),
        stands_at(w.bytes, pos, prefixes(t) + b),
        w.bytes.len() <= usize::MAX,
        total(vals) + nesting(t) <= m <= usize::MAX,
        arity(t) <= m,
        affords_typed(w, m),
    ensures
        block_values_at(w, pos, t, vals.len() as u64) == Ok::<(Col, int), ErrorView>(
            (col_of(vals, t), pos + prefixes(t).len() + b.len()),
        ),
{
    lemma_total_len(vals);
    lemma_stands_split(w.bytes, pos, prefixes(t), b);
    lemma_decode_prefixes_back(w, pos, t, 0);
    assert(written_as(vals, t, b)) by {
        reveal(written_as);
    }
    let p = pos + prefixes(t).len();
    lemma_decode_back(w, p, vals, t, 0, m, b);
    assert(decode_at(w, p, t, vals.len() as u64, 0) == Ok::<(Col, int), ErrorView>(
        (col_of(vals, t), p + b.len()),
    )) by {
        reveal(decodes_to);
    }
}

// ---------------------------------------------------------------------------
// Blocks
// ---------------------------------------------------------------------------

/// The type a column is written with.
pub open spec fn wire_type(t: Ty) -> Ty {
    if t is NewJson || t is Json {
        Ty::String
    } else {
        t
    }
}

/// The types the columns are written with.
pub open spec fn wire_types(columns: Seq<SchemaView>) -> Seq<Ty> {
    columns.map_values(|c: SchemaView| wire_type(c.ty))
}

/// Whether a column's header reads back as what it declares, and its values are
/// ones that read back.
#[verifier::opaque]
pub open spec fn announces(column: SchemaView) -> bool {
    &&& type_of(declared_type(column)) == Some(wire_type(column.ty))
    &&& vstd::utf8::encode_utf8(column.name).len() <= MAX_STRING_SIZE
    &&& vstd::utf8::encode_utf8(declared_type(column)).len() <= MAX_STRING_SIZE
    &&& typed(wire_type(column.ty))
    &&& nesting(column.ty) <= MAX_DECODE_DEPTH
}

/// Whether the `columns` of rows worth `size` take no more than `m` elements in
/// any buffer.
pub open spec fn holds_columns(columns: Seq<SchemaView>, size: nat, m: nat) -> bool {
    &&& columns.len() <= m
    &&& forall|k: int|
        0 <= k < columns.len() ==> size + nesting((#[trigger] columns[k]).ty) <= m && arity(
            columns[k].ty,
        ) <= m
}

/// The block that rows make.
pub open spec fn block_of(rows: Seq<Val>, columns: Seq<SchemaView>) -> BlockView {
    BlockView {
        columns: Seq::new(
            columns.len(),
            |k: int| col_of(field_vals(rows, k), wire_type(columns[k].ty)),
        ),
        schema: columns.map_values(|c: SchemaView| (c.name, declared_type(c))),
        num_rows: rows.len() as u64,
    }
}

pub proof fn lemma_wire_fields(d: Seq<u8>, columns: Seq<SchemaView>)
    ensures
        fields_at(d, column_tys(columns)) == fields_at(d, wire_types(columns)),
    decreases columns.len(),
{
    if columns.len() > 0 {
        let before = columns.drop_last();
        lemma_wire_fields(d, before);
        assert(column_tys(columns).drop_last() =~= column_tys(before));
        assert(wire_types(columns).drop_last() =~= wire_types(before));
        assert(column_tys(columns).last() == columns.last().ty);
        assert(wire_types(columns).last() == wire_type(columns.last().ty));
    } else {
        assert(column_tys(columns) =~= wire_types(columns));
    }
}

/// The rows split into the forms of their fields.
pub proof fn lemma_rows_split(rows: Seq<Val>, columns: Seq<SchemaView>)
    requires
        all_fit(rows, Ty::Tuple(wire_types(columns))),
    ensures
        each(cells(rows), row_of(column_tys(columns))) == Ok::<Seq<Seq<Seq<u8>>>, ErrorView>(
            tuple_rows(rows),
        ),
{
    let ts = wire_types(columns);
    lemma_cells(rows);
    lemma_all_fit(rows, Ty::Tuple(ts));
    assert forall|i: int| 0 <= i < rows.len() implies row_of(column_tys(columns))(
        #[trigger] cells(rows)[i],
    ) == Ok::<Seq<Seq<u8>>, ErrorView>(tuple_rows(rows)[i]) by {
        assert(fits(rows[i], Ty::Tuple(ts)));
        let d = cell(rows[i]);
        assert(d.subrange(0, d.len() as int) =~= d);
        lemma_fields_at(d, rows[i]->Fields_0, ts);
        lemma_wire_fields(d, columns);
    }
    lemma_each_ok(cells(rows), row_of(column_tys(columns)), tuple_rows(rows));
}

/// The header of a column reads back.
pub proof fn lemma_header_back(w: WireView, pos: int, column: SchemaView, custom: bool)
    requires
        stands_at(w.bytes, pos, column_header(column, custom)),
        vstd::utf8::encode_utf8(column.name).len() <= MAX_STRING_SIZE,
        vstd::utf8::encode_utf8(declared_type(column)).len() <= MAX_STRING_SIZE,
    ensures
        ({
            let p = pos + string(vstd::utf8::encode_utf8(column.name)).len();
            let q = p + string(vstd::utf8::encode_utf8(declared_type(column))).len();
            &&& utf8_string_at(w.bytes, pos) == Ok::<(Seq<char>, int), ErrorView>((column.name, p))
            &&& utf8_string_at(w.bytes, p) == Ok::<(Seq<char>, int), ErrorView>(
                (declared_type(column), q),
            )
            &&& custom_flag_at(w, q, custom, column.name) == Ok::<((), int), ErrorView>(
                ((), pos + column_header(column, custom).len()),
            )
        }),
{
    let name = vstd::utf8::encode_utf8(column.name);
    let declared = vstd::utf8::encode_utf8(declared_type(column));
    let flag: Seq<u8> = if custom {
        seq![0u8]
    } else {
        seq![]
    };
    lemma_stands_split(w.bytes, pos, string(name) + string(declared), flag);
    lemma_stands_split(w.bytes, pos, string(name), string(declared));
    law_string_round_trip(w.bytes, pos, name);
    law_string_round_trip(w.bytes, pos + string(name).len(), declared);
    vstd::utf8::encode_utf8_valid_utf8(column.name);
    vstd::utf8::encode_utf8_decode_utf8(column.name);
    vstd::utf8::encode_utf8_valid_utf8(declared_type(column));
    vstd::utf8::encode_utf8_decode_utf8(declared_type(column));
    if custom {
        let q = pos + string(name).len() + string(declared).len();
        assert(w.bytes.subrange(q, q + 1)[0] == 0);
    }
}

/// A column and its header stand at `pos`, and end at `end`.
#[verifier::opaque]
pub open spec fn announced_as(
    w: WireView,
    pos: int,
    rows: u64,
    custom: bool,
    a: Announced,
    end: int,
) -> bool {
    announced_reader(w, rows, custom)(pos) == Ok::<(Announced, int), ErrorView>((a, end))
}

/// The values of a column, prefixes first, decode to `col` and end at `end`.
#[verifier::opaque]
pub open spec fn values_decode_to(
    w: WireView,
    pos: int,
    t: Ty,
    rows: u64,
    col: Col,
    end: int,
) -> bool {
    block_values_at(w, pos, t, rows) == Ok::<(Col, int), ErrorView>((col, end))
}

proof fn lemma_announced_unfolds(
    w: WireView,
    pos: int,
    rows: u64,
    custom: bool,
    a: Announced,
    t: Ty,
    p: int,
    q: int,
    s: int,
    end: int,
)
    requires
        utf8_string_at(w.bytes, pos) == Ok::<(Seq<char>, int), ErrorView>((a.0.0, p)),
        utf8_string_at(w.bytes, p) == Ok::<(Seq<char>, int), ErrorView>((a.0.1, q)),
        custom_flag_at(w, q, custom, a.0.0) == Ok::<((), int), ErrorView>(((), s)),
        type_of(a.0.1) == Some(t),
        values_decode_to(w, s, t, rows, a.1, end),
    ensures
        announced_as(w, pos, rows, custom, a, end),
{
    reveal(announced_as);
    reveal(values_decode_to);
}

proof fn lemma_wire_values_back(
    w: WireView,
    pos: int,
    vals: Seq<Val>,
    t: Ty,
    m: nat,
    b: Seq<u8>,
)
    requires
        typed(wire_type(t)),
        nesting(t) <= MAX_DECODE_DEPTH,
        vals.len() > 0,
        all_fit(vals, wire_type(t)),
        written_as(vals, t, b),
        stands_at(w.bytes, pos, prefixes(t) + b),
        w.bytes.len() <= usize::MAX,
        total(vals) + nesting(t) <= m <= usize::MAX,
        arity(t) <= m,
        affords_typed(w, m),
    ensures
        values_decode_to(
            w,
            pos,
            wire_type(t),
            vals.len() as u64,
            col_of(vals, wire_type(t)),
            pos + prefixes(t).len() + b.len(),
        ),
{
    reveal(values_decode_to);
    reveal(written_as);
    assert(prefixes(t) == prefixes(wire_type(t)));
    assert(col_bytes(cells(vals), wire_type(t)) == Ok::<Seq<u8>, ErrorView>(b));
    law_column_round_trip(w, pos, vals, wire_type(t), m, b);
}

/// A column reads back behind its header.
proof fn lemma_announced_back(
    w: WireView,
    pos: int,
    vals: Seq<Val>,
    column: SchemaView,
    custom: bool,
    m: nat,
    b: Seq<u8>,
)
    requires
        announces(column),
        vals.len() > 0,
        all_fit(vals, wire_type(column.ty)),
        written_as(vals, column.ty, b),
        stands_at(w.bytes, pos, column_header(column, custom) + prefixes(column.ty) + b),
        w.bytes.len() <= usize::MAX,
        total(vals) + nesting(column.ty) <= m <= usize::MAX,
        arity(column.ty) <= m,
        affords_typed(w, m),
    ensures
        announced_as(
            w,
            pos,
            vals.len() as u64,
            custom,
            ((column.name, declared_type(column)), col_of(vals, wire_type(column.ty))),
            pos + column_header(column, custom).len() + prefixes(column.ty).len() + b.len(),
        ),
{
    reveal(announces);
    let head = column_header(column, custom);
    let t = wire_type(column.ty);
    let p = pos + string(vstd::utf8::encode_utf8(column.name)).len();
    let q = p + string(vstd::utf8::encode_utf8(declared_type(column))).len();
    assert(head + prefixes(column.ty) + b =~= head + (prefixes(column.ty) + b));
    lemma_stands_split(w.bytes, pos, head, prefixes(column.ty) + b);
    lemma_header_back(w, pos, column, custom);
    lemma_wire_values_back(w, pos + head.len(), vals, column.ty, m, b);
    lemma_announced_unfolds(
        w,
        pos,
        vals.len() as u64,
        custom,
        ((column.name, declared_type(column)), col_of(vals, t)),
        t,
        p,
        q,
        pos + head.len(),
        pos + head.len() + prefixes(column.ty).len() + b.len(),
    );
}

/// The last column of a block, and what stands before it.
pub proof fn lemma_last_column_written(
    rows: Seq<Val>,
    columns: Seq<SchemaView>,
    custom: bool,
    out: Seq<u8>,
) -> (parts: (Seq<u8>, Seq<u8>))
    requires
        columns.len() > 0,
        rows_fit(rows, wire_types(columns)),
        block_columns(tuple_rows(rows), columns, custom) == Ok::<Seq<u8>, ErrorView>(out),
    ensures
        ({
            let column = columns.last();
            let vals = field_vals(rows, columns.len() - 1);
            &&& out == parts.0 + (column_header(column, custom) + prefixes(column.ty) + parts.1)
            &&& block_columns(tuple_rows(rows), columns.drop_last(), custom) == Ok::<
                Seq<u8>,
                ErrorView,
            >(parts.0)
            &&& written_as(vals, column.ty, parts.1)
            &&& all_fit(vals, wire_type(column.ty))
            &&& total(vals) <= total(rows)
            &&& rows_fit(rows, wire_types(columns.drop_last()))
        }),
{
    reveal(written_as);
    let n = columns.len() - 1;
    let before = columns.drop_last();
    let column = columns[n];
    let vals = field_vals(rows, n);
    let b1 = block_columns(tuple_rows(rows), before, custom)->Ok_0;
    assert(wire_types(columns)[n] == wire_type(column.ty));
    assert(all_fit(vals, wire_type(column.ty)));
    lemma_field_column(rows, n);
    lemma_fields_total(rows, n);
    let b2 = col_bytes(cells(vals), column.ty)->Ok_0;
    assert(out =~= b1 + (column_header(column, custom) + prefixes(column.ty) + b2));
    assert forall|k: int| 0 <= k < before.len() implies all_fit(
        #[trigger] field_vals(rows, k),
        wire_types(before)[k],
    ) by {
        assert(all_fit(field_vals(rows, k), wire_types(columns)[k]));
    }
    (b1, b2)
}

/// The columns that `rows` announce.
pub open spec fn announced(rows: Seq<Val>, columns: Seq<SchemaView>) -> Seq<Announced> {
    Seq::new(
        columns.len(),
        |k: int|
            (
                (columns[k].name, declared_type(columns[k])),
                col_of(field_vals(rows, k), wire_type(columns[k].ty)),
            ),
    )
}

/// Announced columns stand at `pos`, one behind the other, and end at `end`.
#[verifier::opaque]
pub open spec fn all_announced(
    w: WireView,
    pos: int,
    rows: u64,
    custom: bool,
    all: Seq<Announced>,
    end: int,
) -> bool {
    many(announced_reader(w, rows, custom), pos, all.len()) == Ok::<
        (Seq<Announced>, int),
        ErrorView,
    >((all, end))
}

proof fn lemma_announced_pushed(
    w: WireView,
    pos: int,
    rows: u64,
    custom: bool,
    all: Seq<Announced>,
    p: int,
    end: int,
)
    requires
        all.len() > 0,
        all_announced(w, pos, rows, custom, all.drop_last(), p),
        announced_as(w, p, rows, custom, all.last(), end),
    ensures
        all_announced(w, pos, rows, custom, all, end),
{
    reveal(all_announced);
    reveal(announced_as);
    assert(all =~= all.drop_last().push(all.last()));
}

proof fn lemma_block_back(
    w: WireView,
    pos: int,
    rows: Seq<Val>,
    columns: Seq<SchemaView>,
    custom: bool,
    m: nat,
    out: Seq<u8>,
)
    requires
        rows.len() > 0,
        rows_fit(rows, wire_types(columns)),
        forall|k: int| 0 <= k < columns.len() ==> announces(#[trigger] columns[k]),
        block_columns(tuple_rows(rows), columns, custom) == Ok::<Seq<u8>, ErrorView>(out),
        stands_at(w.bytes, pos, out),
        w.bytes.len() <= usize::MAX,
        holds_columns(columns, total(rows), m),
        m <= usize::MAX,
        affords_typed(w, m),
    ensures
        all_announced(
            w,
            pos,
            rows.len() as u64,
            custom,
            announced(rows, columns),
            pos + out.len(),
        ),
    decreases columns.len(),
{
    if columns.len() > 0 {
        let n = columns.len() - 1;
        let before = columns.drop_last();
        let column = columns[n];
        let vals = field_vals(rows, n);
        let (b1, b2) = lemma_last_column_written(rows, columns, custom, out);
        lemma_stands_split(
            w.bytes,
            pos,
            b1,
            column_header(column, custom) + prefixes(column.ty) + b2,
        );
        assert forall|k: int| 0 <= k < before.len() implies announces(#[trigger] before[k]) by {
            assert(announces(columns[k]));
        }
        assert forall|k: int| 0 <= k < before.len() implies total(rows) + nesting(
            (#[trigger] before[k]).ty,
        ) <= m && arity(before[k].ty) <= m by {
            assert(columns[k] == before[k]);
        }
        lemma_block_back(w, pos, rows, before, custom, m, b1);
        assert(announces(columns[n]));
        lemma_announced_back(w, pos + b1.len(), vals, column, custom, m, b2);
        let all = announced(rows, columns);
        assert(all.drop_last() =~= announced(rows, before));
        lemma_announced_pushed(
            w,
            pos,
            rows.len() as u64,
            custom,
            all,
            pos + b1.len(),
            pos + out.len(),
        );
    } else {
        reveal(all_announced);
        assert(announced(rows, columns) =~= seq![]);
    }
}

/// Decoding a block inverts encoding it: where the encoded form of rows
/// stands, decoding gives one typed column for every column of the schema, in
/// order, under the names and types that were declared, and consumes all of the
/// form.
pub proof fn law_block_round_trip(
    w: WireView,
    pos: int,
    rows: Seq<Val>,
    columns: Seq<SchemaView>,
    revision: u64,
    m: nat,
    out: Seq<u8>,
)
    requires
        0 < rows.len() <= MAX_BLOCK_ROWS,
        0 < columns.len() <= MAX_BLOCK_COLUMNS,
        all_fit(rows, Ty::Tuple(wire_types(columns))),
        forall|k: int| 0 <= k < columns.len() ==> announces(#[trigger] columns[k]),
        encoded(cells(rows), columns, revision) == Ok::<Seq<u8>, ErrorView>(out),
        stands_at(w.bytes, pos, out),
        w.bytes.len() <= usize::MAX,
        holds_columns(columns, total(rows), m),
        m <= usize::MAX,
        affords_typed(w, m),
        claim::<(String, String)>(columns.len(), w.budget) is Ok,
    ensures
        block_at(w, pos, columns.len() as u64, rows.len() as u64, revision) == Ok::<
            (BlockView, int),
            ErrorView,
        >((block_of(rows, columns), pos + out.len())),
{
    let all = announced(rows, columns);
    lemma_cells(rows);
    lemma_rows_split(rows, columns);
    lemma_tuple_layout(rows, wire_types(columns));
    lemma_block_back(w, pos, rows, columns, has_custom(revision), m, out);
    reveal(all_announced);
    lemma_affords_less(w, columns.len(), m);
    assert(announced_columns(all) =~= block_of(rows, columns).columns);
    assert(announced_schema(all) =~= block_of(rows, columns).schema);
}

} // verus!
