//! Native column reader.
//!
//! Reads native columnar data and re-serialises each cell as `RowBinary`. The
//! two formats agree byte for byte on scalars and differ only in layout;
//! `Nullable` is the one type whose structure differs, and `Variant`,
//! `Dynamic` and `JSON` are rendered as one JSON document per row.

use vstd::prelude::*;
use vstd::string::*;

use crate::error::{Error, ErrorView};
use crate::native::columns::{fixed_size, lemma_tys, lemma_tys_push, type_of, tys, ColumnType, Ty};
use crate::native::encode::{column, flat, row_bytes};
use crate::native::io::{
    bytes_at, bytes_from, chain, claim, le_at, le_number, lemma_chain_err, lemma_many_err,
    lemma_table_err, many, push_all, push_string, push_var_uint, reads, string, string_at,
    string_from, table, u64_at, u64_from, utf8_string_at, utf8_string_from, var_uint, var_uint_at,
    var_uint_from, with_cap, Read, Wire, WireView,
};
use crate::native::json::{json_cell, null_text, rowbinary_to_json};
use crate::native::quote::{push_quoted, quoted_bytes};
use crate::native::names::{name_texts, sort_names, sorted};
use crate::text::{chars_of, decimal, push_decimal, spells};

verus! {

/// Per-row `RowBinary` bytes for a single column's values.
///
/// Each element is the RowBinary-encoded bytes for that row's field value.
pub type ColumnData = Vec<Vec<u8>>;

/// The mathematical value of a [`ColumnData`].
pub type Cells = Seq<Seq<u8>>;

/// How a sub-column is read: from a position, by its type and row count.
pub type Nested = spec_fn(int, Ty, u64) -> Read<Cells>;

/// Upper bound on composite nesting the reader descends. Variant, Dynamic and
/// JSON columns carry type names on the wire, so nesting is not bounded by the
/// declared column type alone.
pub const MAX_READ_DEPTH: usize = 32;

/// Upper bound on the arms of a `Variant`; 255 is the server's own limit,
/// because discriminator 255 is reserved for NULL.
pub const MAX_VARIANT_TYPES: usize = 255;

/// Upper bound on the concrete types a `Dynamic` or JSON path may declare. One
/// slot below [`MAX_VARIANT_TYPES`] because `SharedVariant` is implicit.
pub const MAX_WIRE_TYPES: usize = 254;

/// Upper bound on the dynamic paths one JSON column may declare, comfortably
/// above the server's `max_dynamic_paths`.
pub const MAX_JSON_PATHS: usize = 65_536;

/// JSON serialization version carrying one JSON string per row, which
/// `output_format_native_write_json_as_string=1` selects.
pub const JSON_SERIALIZATION_STRING: u64 = 1;

/// Discriminator reserved for NULL in the `Variant` and Dynamic v1/v2 formats.
pub const NULL_DISCRIMINATOR: u8 = 255;

/// `DiscriminatorsSerializationMode::BASIC` -- one plain discriminator byte per
/// row. `COMPACT` prepends a row count and a per-granule format byte, which
/// this reader does not walk.
pub const VARIANT_MODE_BASIC: u64 = 0;

/// Serialization version a flattened Dynamic sub-column announces, which each
/// JSON v3 path carries ahead of its type list.
pub const DYNAMIC_FLATTENED: u64 = 3;

// ---------------------------------------------------------------------------
// Errors
// ---------------------------------------------------------------------------

/// The error of a type that nests too deep.
pub open spec fn too_deep() -> ErrorView {
    ErrorView::BadResponse(
        "native protocol: column type nesting exceeds "@ + decimal(MAX_READ_DEPTH as nat)
            + " levels"@,
    )
}

/// The error of a row count that this machine cannot address.
pub open spec fn too_many_rows(n: nat) -> ErrorView {
    ErrorView::BadResponse("native protocol: row count "@ + decimal(n) + " exceeds platform usize"@)
}

pub fn error_too_deep() -> (e: Error)
    ensures
        e@ == too_deep(),
{
    let mut text = "native protocol: column type nesting exceeds ".to_owned();
    push_decimal(&mut text, MAX_READ_DEPTH as u128);
    text.append(" levels");
    Error::BadResponse(text)
}

pub fn error_too_many_rows(n: u64) -> (e: Error)
    ensures
        e@ == too_many_rows(n as nat),
{
    let mut text = "native protocol: row count ".to_owned();
    push_decimal(&mut text, n as u128);
    text.append(" exceeds platform usize");
    Error::BadResponse(text)
}

/// The largest machine size that is at most `n`.
pub open spec fn clamped(n: nat) -> nat {
    if n > usize::MAX {
        usize::MAX as nat
    } else {
        n
    }
}

// ---------------------------------------------------------------------------
// Plain cells
// ---------------------------------------------------------------------------

/// Cells of `size` bytes each.
pub open spec fn fixed_reader(d: Seq<u8>, size: nat) -> spec_fn(int) -> Read<Seq<u8>> {
    |p: int| bytes_at(d, p, size)
}

/// `n` cells of `size` bytes each.
pub open spec fn fixed_cells(w: WireView, pos: int, n: nat, size: nat) -> Read<Cells> {
    match claim::<Vec<u8>>(n, w.budget) {
        Ok(()) => many(fixed_reader(w.bytes, size), pos, n),
        Err(e) => Err(e),
    }
}

/// String cells, in their `RowBinary` form.
pub open spec fn string_reader(d: Seq<u8>) -> spec_fn(int) -> Read<Seq<u8>> {
    |p: int|
        match string_at(d, p) {
            Ok((s, q)) => Ok((string(s), q)),
            Err(e) => Err(e),
        }
}

/// `n` string cells.
pub open spec fn string_cells(w: WireView, pos: int, n: nat) -> Read<Cells> {
    match claim::<Vec<u8>>(n, w.budget) {
        Ok(()) => many(string_reader(w.bytes), pos, n),
        Err(e) => Err(e),
    }
}

/// Cells of `a` and `b` joined row by row.
pub open spec fn zipped(a: Cells, b: Cells, n: nat) -> Cells {
    Seq::new(n, |i: int| a[i] + b[i])
}

/// Points: all x-values, then all y-values, transposed into 16 raw bytes per
/// row.
pub open spec fn point_cells(w: WireView, pos: int, n: nat) -> Read<Cells> {
    match fixed_cells(w, pos, n, 8) {
        Ok((xs, p)) => match fixed_cells(w, p, n, 8) {
            Ok((ys, q)) => Ok((zipped(xs, ys, n), q)),
            Err(e) => Err(e),
        },
        Err(e) => Err(e),
    }
}

// ---------------------------------------------------------------------------
// Nullable and LowCardinality
// ---------------------------------------------------------------------------

/// The `RowBinary` form of a nullable value: NULL is one flag byte, a value
/// follows a zero flag.
pub open spec fn nullable_cells(flags: Seq<u8>, values: Cells, n: nat) -> Cells {
    Seq::new(
        n,
        |i: int|
            if flags[i] != 0 {
                seq![1u8]
            } else {
                seq![0u8] + values[i]
            },
    )
}

/// A nullable column: n null-flags, then n values, nulls included.
pub open spec fn nullable_at(nested: Nested, w: WireView, pos: int, n: nat, inner: Ty) -> Read<Cells> {
    match bytes_at(w.bytes, pos, n) {
        Ok((flags, p)) => match nested(p, inner, n as u64) {
            Ok((values, q)) => match claim::<Vec<u8>>(n, w.budget) {
                Ok(()) => Ok((nullable_cells(flags, values, n), q)),
                Err(e) => Err(e),
            },
            Err(e) => Err(e),
        },
        Err(e) => Err(e),
    }
}

/// The error of a global dictionary.
pub open spec fn global_dictionary() -> ErrorView {
    ErrorView::BadResponse(
        "native protocol: LowCardinality global dictionary is not supported on the client-server path (only per-block additional keys)"@,
    )
}

/// The error of a block without a dictionary.
pub open spec fn no_dictionary() -> ErrorView {
    ErrorView::BadResponse(
        "native protocol: LowCardinality block set neither the additional-keys nor the global-dictionary flag"@,
    )
}

/// The error of an index count that is not the row count.
pub open spec fn index_count(indices: nat, n: nat) -> ErrorView {
    ErrorView::BadResponse(
        "native protocol: LowCardinality index count "@ + decimal(indices) + " != row count "@
            + decimal(n),
    )
}

/// The error of an index outside the dictionary.
pub open spec fn index_range(idx: nat, size: nat) -> ErrorView {
    ErrorView::BadResponse(
        "native protocol: LowCardinality index "@ + decimal(idx) + " out of range (dict size "@
            + decimal(size) + ")"@,
    )
}

/// Whether the flags of a `LowCardinality` block are ones this reader takes:
/// additional keys, and no global dictionary.
pub open spec fn lc_flags(state: u64) -> Result<(), ErrorView> {
    if (state / 0x100) % 2 == 1 {
        Err(global_dictionary())
    } else if (state / 0x200) % 2 == 0 {
        Err(no_dictionary())
    } else {
        Ok(())
    }
}

/// The index width that the flags announce.
pub open spec fn lc_width(state: u64) -> nat {
    if state % 4 == 0 {
        1
    } else if state % 4 == 1 {
        2
    } else if state % 4 == 2 {
        4
    } else {
        8
    }
}

/// The cell that an index stands for. Index 0 of a nullable column is the null
/// sentinel; every other index is a value.
pub open spec fn lc_cell(dict: Cells, idx: nat, nullable: bool) -> Result<Seq<u8>, ErrorView> {
    if nullable && idx == 0 {
        Ok(seq![1u8])
    } else if idx >= dict.len() {
        Err(index_range(idx, dict.len()))
    } else if nullable {
        Ok(seq![0u8] + dict[idx as int])
    } else {
        Ok(dict[idx as int])
    }
}

/// Cells by their indices into the dictionary.
pub open spec fn lc_reader(d: Seq<u8>, dict: Cells, nullable: bool, width: nat) -> spec_fn(
    int,
) -> Read<Seq<u8>> {
    |p: int|
        match le_at(d, p, width) {
            Ok((idx, q)) => match lc_cell(dict, clamped(idx), nullable) {
                Ok(cell) => Ok((cell, q)),
                Err(e) => Err(e),
            },
            Err(e) => Err(e),
        }
}

/// The dictionary type of a `LowCardinality` column and whether its rows can
/// be NULL: a nullable column carries a T dictionary whose slot 0 is the null
/// sentinel, so the wire type is always the unwrapped T.
pub open spec fn lc_inner(inner: Ty) -> (Ty, bool) {
    match inner {
        Ty::Nullable(x) => (*x, true),
        _ => (inner, false),
    }
}

/// A `LowCardinality` column: flags, the dictionary, then an index per row.
pub open spec fn low_cardinality_at(
    nested: Nested,
    w: WireView,
    pos: int,
    n: nat,
    inner: Ty,
) -> Read<Cells> {
    match u64_at(w.bytes, pos) {
        Ok((state, p)) => match lc_flags(state) {
            Ok(()) => match u64_at(w.bytes, p) {
                Ok((size, q)) => match nested(q, lc_inner(inner).0, size) {
                    Ok((dict, r)) => lc_indices_at(w, r, n, state, dict, lc_inner(inner).1),
                    Err(e) => Err(e),
                },
                Err(e) => Err(e),
            },
            Err(e) => Err(e),
        },
        Err(e) => Err(e),
    }
}

/// The indices of a `LowCardinality` column, behind its dictionary.
pub open spec fn lc_indices_at(
    w: WireView,
    pos: int,
    n: nat,
    state: u64,
    dict: Cells,
    nullable: bool,
) -> Read<Cells> {
    match u64_at(w.bytes, pos) {
        Ok((indices, p)) => if indices != n {
            Err(index_count(indices as nat, n))
        } else {
            match claim::<Vec<u8>>(n, w.budget) {
                Ok(()) => many(lc_reader(w.bytes, dict, nullable, lc_width(state)), p, n),
                Err(e) => Err(e),
            }
        },
        Err(e) => Err(e),
    }
}

// ---------------------------------------------------------------------------
// Arrays, maps and tuples
// ---------------------------------------------------------------------------

/// Cumulative end-offsets.
pub open spec fn offset_reader(d: Seq<u8>) -> spec_fn(int) -> Read<u64> {
    |p: int| u64_at(d, p)
}

/// `n` cumulative end-offsets.
pub open spec fn offsets_at(w: WireView, pos: int, n: nat) -> Read<Seq<u64>> {
    match claim::<u64>(n, w.budget) {
        Ok(()) => many(offset_reader(w.bytes), pos, n),
        Err(e) => Err(e),
    }
}

/// The element count that the offsets end with.
pub open spec fn last_or_zero(offsets: Seq<u64>) -> u64 {
    if offsets.len() == 0 {
        0
    } else {
        offsets.last()
    }
}

/// The error of an offset outside what is there.
pub open spec fn span_error(what: Seq<char>, end: nat, prev: nat, available: nat) -> ErrorView {
    ErrorView::BadResponse(
        "native protocol: "@ + what + " column offset "@ + decimal(end) + " is outside "@
            + decimal(prev) + "..="@ + decimal(available),
    )
}

/// The ends of the spans: an offset below its predecessor, or past the elements
/// the sub-column actually carries, is an error.
pub open spec fn ends_of(offsets: Seq<u64>, available: nat, what: Seq<char>) -> Result<
    Seq<nat>,
    ErrorView,
>
    decreases offsets.len(),
{
    if offsets.len() == 0 {
        Ok(seq![])
    } else {
        match ends_of(offsets.drop_last(), available, what) {
            Ok(ends) => {
                let prev = last_end(ends);
                let end = clamped(offsets.last() as nat);
                if end < prev || end > available {
                    Err(span_error(what, end, prev, available))
                } else {
                    Ok(ends.push(end))
                }
            },
            Err(e) => Err(e),
        }
    }
}

/// Where the last span ends.
pub open spec fn last_end(ends: Seq<nat>) -> nat {
    if ends.len() == 0 {
        0
    } else {
        ends.last()
    }
}

/// The items of the `i`th span.
pub open spec fn span<T>(items: Seq<T>, ends: Seq<nat>, i: int) -> Seq<T> {
    items.subrange(
        if i == 0 {
            0
        } else {
            ends[i - 1] as int
        },
        ends[i] as int,
    )
}

/// The `RowBinary` form of an array: the item count, then the items.
pub open spec fn counted(items: Cells) -> Seq<u8> {
    var_uint(items.len()) + flat(items)
}

/// The arrays that the spans cut the items into.
pub open spec fn array_cells(items: Cells, ends: Seq<nat>) -> Cells {
    Seq::new(ends.len(), |i: int| counted(span(items, ends, i)))
}

/// The arrays that the offsets cut the items into.
pub open spec fn cut_arrays(items: Cells, offsets: Seq<u64>, what: Seq<char>) -> Result<
    Cells,
    ErrorView,
> {
    match ends_of(offsets, items.len(), what) {
        Ok(ends) => Ok(array_cells(items, ends)),
        Err(e) => Err(e),
    }
}

/// An array column: n cumulative end-offsets, then all elements as a regular
/// column.
pub open spec fn array_at(nested: Nested, w: WireView, pos: int, n: nat, inner: Ty) -> Read<Cells> {
    match offsets_at(w, pos, n) {
        Ok((offsets, p)) => match nested(p, inner, last_or_zero(offsets)) {
            Ok((items, q)) => match claim::<Vec<u8>>(n, w.budget) {
                Ok(()) => match cut_arrays(items, offsets, "Array"@) {
                    Ok(cells) => Ok((cells, q)),
                    Err(e) => Err(e),
                },
                Err(e) => Err(e),
            },
            Err(e) => Err(e),
        },
        Err(e) => Err(e),
    }
}

/// The smaller of two lengths.
pub open spec fn shorter(a: nat, b: nat) -> nat {
    if a <= b {
        a
    } else {
        b
    }
}

/// Map entries: the keys and values joined pair by pair.
pub open spec fn entries(keys: Cells, vals: Cells) -> Cells {
    zipped(keys, vals, shorter(keys.len(), vals.len()))
}

/// A map column: n cumulative end-offsets, then all keys and all values as
/// regular columns.
pub open spec fn map_at(nested: Nested, w: WireView, pos: int, n: nat, k: Ty, v: Ty) -> Read<Cells> {
    match offsets_at(w, pos, n) {
        Ok((offsets, p)) => match nested(p, k, last_or_zero(offsets)) {
            Ok((keys, q)) => match nested(q, v, last_or_zero(offsets)) {
                Ok((vals, r)) => match claim::<Vec<u8>>(n, w.budget) {
                    Ok(()) => match cut_arrays(entries(keys, vals), offsets, "Map"@) {
                        Ok(cells) => Ok((cells, r)),
                        Err(e) => Err(e),
                    },
                    Err(e) => Err(e),
                },
                Err(e) => Err(e),
            },
            Err(e) => Err(e),
        },
        Err(e) => Err(e),
    }
}

/// Sub-columns of the types `ts` with `counts` rows, one behind the other.
pub open spec fn columns_at(nested: Nested, pos: int, ts: Seq<Ty>, counts: Seq<u64>) -> Read<Seq<Cells>>
    decreases ts.len(),
{
    if ts.len() == 0 {
        Ok((seq![], pos))
    } else {
        match columns_at(nested, pos, ts.drop_last(), counts) {
            Ok((cols, p)) => match nested(p, ts.last(), counts[ts.len() - 1]) {
                Ok((cells, q)) => Ok((cols.push(cells), q)),
                Err(e) => Err(e),
            },
            Err(e) => Err(e),
        }
    }
}

/// The same row count for each of `k` sub-columns.
pub open spec fn same_count(n: nat, k: nat) -> Seq<u64> {
    Seq::new(k, |i: int| n as u64)
}

/// The rows of a tuple column: the fields' cells joined in field order.
pub open spec fn tuple_cells(cols: Seq<Cells>, n: nat) -> Cells {
    Seq::new(n, |i: int| flat(column(cols, i)))
}

/// A tuple column: each field is its own columnar block in field order.
pub open spec fn tuple_at(nested: Nested, w: WireView, pos: int, n: nat, ts: Seq<Ty>) -> Read<Cells> {
    match claim::<Vec<u8>>(n, w.budget) {
        Ok(()) => match columns_at(nested, pos, ts, same_count(n, ts.len())) {
            Ok((cols, p)) => Ok((tuple_cells(cols, n), p)),
            Err(e) => Err(e),
        },
        Err(e) => Err(e),
    }
}

// ---------------------------------------------------------------------------
// Values chosen by a discriminator
// ---------------------------------------------------------------------------

/// How often `value` occurs in `list`.
pub open spec fn tally(list: Seq<nat>, value: nat) -> nat
    decreases list.len(),
{
    if list.len() == 0 {
        0
    } else if list.last() == value {
        tally(list.drop_last(), value) + 1
    } else {
        tally(list.drop_last(), value)
    }
}

/// The rows that each of `k` sub-columns owns.
pub open spec fn tallies(discs: Seq<nat>, k: nat) -> Seq<u64> {
    Seq::new(k, |i: int| tally(discs, i as nat) as u64)
}

/// The types that a discriminator chooses from; values of a hidden one are not
/// shown.
pub struct Types {
    pub ts: Seq<Ty>,
    pub hidden: Seq<bool>,
}

/// Rows whose values are chosen by a discriminator.
pub struct Chosen {
    pub discs: Seq<nat>,
    pub cols: Seq<Cells>,
}

/// Whether row `i` has no value to show: its discriminator names no type, or a
/// hidden one.
pub open spec fn is_absent(types: Types, chosen: Chosen, i: int) -> bool {
    let d = chosen.discs[i];
    d >= types.ts.len() || types.hidden[d as int]
}

/// The JSON text of the value of row `i`: the next one of its sub-column, or
/// `null` when the sub-column ran short.
pub open spec fn chosen_json(w: WireView, types: Types, chosen: Chosen, i: int) -> Result<
    Seq<u8>,
    ErrorView,
> {
    let d = chosen.discs[i] as int;
    let cursor = tally(chosen.discs.take(i), d as nat);
    if cursor < chosen.cols[d].len() {
        json_cell(chosen.cols[d][cursor as int], types.ts[d], w.texts)
    } else {
        Ok(null_text())
    }
}

/// The cell of row `i`: a string holding the JSON text of its value.
pub open spec fn document(w: WireView, types: Types, chosen: Chosen) -> spec_fn(int) -> Result<
    Seq<u8>,
    ErrorView,
> {
    |i: int|
        if is_absent(types, chosen, i) {
            Ok(string(null_text()))
        } else {
            match chosen_json(w, types, chosen, i) {
                Ok(json) => Ok(string(json)),
                Err(e) => Err(e),
            }
        }
}

/// `n` such cells.
pub open spec fn documents(w: WireView, types: Types, chosen: Chosen, n: nat) -> Result<
    Cells,
    ErrorView,
> {
    match claim::<Vec<u8>>(n, w.budget) {
        Ok(()) => table(document(w, types, chosen), n),
        Err(e) => Err(e),
    }
}

/// The bytes as numbers.
pub open spec fn as_nats(bytes: Seq<u8>) -> Seq<nat> {
    bytes.map_values(|b: u8| b as nat)
}

/// The sub-columns that the discriminators share out.
pub open spec fn shared_out(
    nested: Nested,
    w: WireView,
    pos: int,
    discs: Seq<nat>,
    ts: Seq<Ty>,
) -> Read<Chosen> {
    match claim::<ColumnData>(ts.len(), w.budget) {
        Ok(()) => match columns_at(nested, pos, ts, tallies(discs, ts.len())) {
            Ok((cols, p)) => Ok((Chosen { discs, cols }, p)),
            Err(e) => Err(e),
        },
        Err(e) => Err(e),
    }
}

/// One discriminator byte per row, then the sub-columns.
pub open spec fn chosen_at(nested: Nested, w: WireView, pos: int, n: nat, ts: Seq<Ty>) -> Read<
    Chosen,
> {
    match bytes_at(w.bytes, pos, n) {
        Ok((bytes, p)) => shared_out(nested, w, p, as_nats(bytes), ts),
        Err(e) => Err(e),
    }
}

/// `chosen`, with every row shown as a document.
pub open spec fn shown_at(w: WireView, n: nat, types: Types, chosen: Read<Chosen>) -> Read<Cells> {
    match chosen {
        Ok((c, p)) => match documents(w, types, c, n) {
            Ok(cells) => Ok((cells, p)),
            Err(e) => Err(e),
        },
        Err(e) => Err(e),
    }
}

/// Types none of which is hidden.
pub open spec fn all_shown(ts: Seq<Ty>) -> Types {
    Types { ts, hidden: Seq::new(ts.len(), |i: int| false) }
}

/// The error of a `Variant` with too many arms.
pub open spec fn too_many_arms(k: nat) -> ErrorView {
    ErrorView::BadResponse(
        "native protocol: Variant declares "@ + decimal(k) + " arms, above the "@ + decimal(
            MAX_VARIANT_TYPES as nat,
        ) + " cap"@,
    )
}

/// A `Variant` column: discriminators, then per type, in definition order, the
/// rows whose discriminator selected it.
pub open spec fn variant_at(nested: Nested, w: WireView, pos: int, n: nat, ts: Seq<Ty>) -> Read<
    Cells,
> {
    if ts.len() > MAX_VARIANT_TYPES {
        Err(too_many_arms(ts.len()))
    } else {
        shown_at(w, n, all_shown(ts), chosen_at(nested, w, pos, n, ts))
    }
}

/// The error of a discriminator mode that is not the basic one.
pub open spec fn variant_mode_error(mode: nat) -> ErrorView {
    ErrorView::BadResponse(
        "native protocol: Variant discriminator serialization mode "@ + decimal(mode)
            + " is not supported (only basic, 0)"@,
    )
}

/// The `Variant` discriminator-serialization mode, which must be the basic one.
pub open spec fn variant_mode_at(d: Seq<u8>, pos: int) -> Read<()> {
    match u64_at(d, pos) {
        Ok((mode, p)) => if mode != VARIANT_MODE_BASIC {
            Err(variant_mode_error(mode as nat))
        } else {
            Ok(((), p))
        },
        Err(e) => Err(e),
    }
}

/// The error of a header count above its cap.
pub open spec fn count_error(what: Seq<char>, raw: nat, cap: nat) -> ErrorView {
    ErrorView::BadResponse(
        "native protocol: "@ + what + " count "@ + decimal(raw) + " is above the "@ + decimal(cap)
            + " cap"@,
    )
}

/// A varuint header count, rejected above `cap` before it sizes a list no
/// payload has to back.
pub open spec fn capped_count_at(d: Seq<u8>, pos: int, cap: nat, what: Seq<char>) -> Read<nat> {
    match var_uint_at(d, pos) {
        Ok((raw, p)) => if raw > cap {
            Err(count_error(what, raw as nat, cap))
        } else {
            Ok((raw as nat, p))
        },
        Err(e) => Err(e),
    }
}

/// The error of a type name on the wire that names no type.
pub open spec fn unsupported_nested(name: Seq<char>) -> ErrorView {
    ErrorView::BadResponse("native protocol: unsupported nested column type '"@ + name + "'"@)
}

/// The type that a name on the wire stands for. `SharedVariant` spill values
/// ride as a String sub-column; any other name the parser rejects would
/// desynchronise the stream.
pub open spec fn wire_type_of(name: Seq<char>) -> Result<Ty, ErrorView> {
    if name == "SharedVariant"@ {
        Ok(Ty::String)
    } else {
        match type_of(name) {
            Some(t) => Ok(t),
            None => Err(unsupported_nested(name)),
        }
    }
}

/// The type of the `i`th name.
pub open spec fn name_type(names: Seq<Seq<char>>) -> spec_fn(int) -> Result<Ty, ErrorView> {
    |i: int| wire_type_of(names[i])
}

/// The types that the names stand for. Values of `SharedVariant` are an opaque
/// binary encoding, and hidden.
pub open spec fn wire_types(names: Seq<Seq<char>>) -> Result<Types, ErrorView> {
    match table(name_type(names), names.len()) {
        Ok(ts) => Ok(
            Types { ts, hidden: names.map_values(|s: Seq<char>| s == "SharedVariant"@) },
        ),
        Err(e) => Err(e),
    }
}

/// UTF-8 strings.
pub open spec fn name_reader(d: Seq<u8>) -> spec_fn(int) -> Read<Seq<char>> {
    |p: int| utf8_string_at(d, p)
}

/// The type list of a v1/v2 `Dynamic`: an unused limit in v1, the names, and
/// the discriminator mode. `SharedVariant` is implicit, and the discriminators
/// index the list in sorted order.
pub open spec fn dynamic_names_at(w: WireView, pos: int, has_max_types: bool) -> Read<
    Seq<Seq<char>>,
> {
    if has_max_types {
        match var_uint_at(w.bytes, pos) {
            Ok((_, p)) => dynamic_list_at(w, p),
            Err(e) => Err(e),
        }
    } else {
        dynamic_list_at(w, pos)
    }
}

/// The names of a v1/v2 `Dynamic` and the discriminator mode behind them.
pub open spec fn dynamic_list_at(w: WireView, pos: int) -> Read<Seq<Seq<char>>> {
    match capped_count_at(w.bytes, pos, MAX_WIRE_TYPES as nat, "Dynamic type"@) {
        Ok((count, p)) => match claim::<String>(count + 1, w.budget) {
            Ok(()) => match many(name_reader(w.bytes), p, count) {
                Ok((names, q)) => match variant_mode_at(w.bytes, q) {
                    Ok((_, r)) => Ok((sorted(names.push("SharedVariant"@)), r)),
                    Err(e) => Err(e),
                },
                Err(e) => Err(e),
            },
            Err(e) => Err(e),
        },
        Err(e) => Err(e),
    }
}

/// The data of a v1/v2 `Dynamic`, read against the type list its prefix
/// declared.
pub open spec fn dynamic_body_at(
    nested: Nested,
    w: WireView,
    pos: int,
    n: nat,
    names: Seq<Seq<char>>,
) -> Read<Cells> {
    match wire_types(names) {
        Ok(types) => shown_at(w, n, types, chosen_at(nested, w, pos, n, types.ts)),
        Err(e) => Err(e),
    }
}

/// A v1/v2 `Dynamic` column.
pub open spec fn dynamic_named_at(
    nested: Nested,
    w: WireView,
    pos: int,
    n: nat,
    has_max_types: bool,
) -> Read<Cells> {
    match dynamic_names_at(w, pos, has_max_types) {
        Ok((names, p)) => dynamic_body_at(nested, w, p, n, names),
        Err(e) => Err(e),
    }
}

/// Types by name, as the wire lists them.
pub open spec fn type_reader(d: Seq<u8>) -> spec_fn(int) -> Read<Ty> {
    |p: int|
        match utf8_string_at(d, p) {
            Ok((name, q)) => match wire_type_of(name) {
                Ok(t) => Ok((t, q)),
                Err(e) => Err(e),
            },
            Err(e) => Err(e),
        }
}

/// A flattened Dynamic type list, which carries no `SharedVariant` and is
/// indexed in declaration order, so the whole 255-slot range is concrete types.
pub open spec fn flat_types_at(w: WireView, pos: int) -> Read<Seq<Ty>> {
    match capped_count_at(w.bytes, pos, MAX_VARIANT_TYPES as nat, "Dynamic type"@) {
        Ok((count, p)) => match claim::<ColumnType>(count, w.budget) {
            Ok(()) => many(type_reader(w.bytes), p, count),
            Err(e) => Err(e),
        },
        Err(e) => Err(e),
    }
}

/// Discriminator width `ClickHouse` picks for `slots` concrete types plus NULL:
/// the narrowest unsigned type whose range covers the slot count, so the u8 arm
/// runs to 255 types inclusive.
pub open spec fn disc_width(slots: nat) -> nat {
    if slots <= 255 {
        1
    } else if slots <= 65_535 {
        2
    } else if slots <= u32::MAX {
        4
    } else {
        8
    }
}

/// Discriminators of `width` bytes.
pub open spec fn disc_reader(d: Seq<u8>, width: nat) -> spec_fn(int) -> Read<nat> {
    |p: int|
        match le_at(d, p, width) {
            Ok((v, q)) => Ok((clamped(v), q)),
            Err(e) => Err(e),
        }
}

/// A discriminator per row, wide enough for the types, then the sub-columns.
pub open spec fn flat_chosen_at(nested: Nested, w: WireView, pos: int, n: nat, ts: Seq<Ty>) -> Read<
    Chosen,
> {
    match claim::<usize>(n, w.budget) {
        Ok(()) => match many(disc_reader(w.bytes, disc_width(ts.len())), pos, n) {
            Ok((discs, p)) => shared_out(nested, w, p, discs, ts),
            Err(e) => Err(e),
        },
        Err(e) => Err(e),
    }
}

/// A flattened `Dynamic` column: no `SharedVariant`, and NULL is the type count
/// itself.
pub open spec fn dynamic_flat_at(nested: Nested, w: WireView, pos: int, n: nat) -> Read<Cells> {
    match flat_types_at(w, pos) {
        Ok((ts, p)) => shown_at(w, n, all_shown(ts), flat_chosen_at(nested, w, p, n, ts)),
        Err(e) => Err(e),
    }
}

/// The error of an unknown `Dynamic` version.
pub open spec fn dynamic_version_error(version: nat) -> ErrorView {
    ErrorView::BadResponse(
        "native protocol: unsupported Dynamic serialization version: "@ + decimal(version),
    )
}

/// A `Dynamic` column: its serialization version, then that version's form.
pub open spec fn dynamic_at(nested: Nested, w: WireView, pos: int, n: nat) -> Read<Cells> {
    match u64_at(w.bytes, pos) {
        Ok((version, p)) => if version == 1 {
            dynamic_named_at(nested, w, p, n, true)
        } else if version == 2 {
            dynamic_named_at(nested, w, p, n, false)
        } else if version == 3 {
            dynamic_flat_at(nested, w, p, n)
        } else {
            Err(dynamic_version_error(version as nat))
        },
        Err(e) => Err(e),
    }
}

// ---------------------------------------------------------------------------
// JSON objects
// ---------------------------------------------------------------------------

/// The paths that a JSON column declares.
pub open spec fn paths_at(w: WireView, pos: int) -> Read<Seq<Seq<char>>> {
    match capped_count_at(w.bytes, pos, MAX_JSON_PATHS as nat, "JSON dynamic path"@) {
        Ok((count, p)) => match claim::<String>(count, w.budget) {
            Ok(()) => many(name_reader(w.bytes), p, count),
            Err(e) => Err(e),
        },
        Err(e) => Err(e),
    }
}

/// The member that path `j` adds to the object of row `i`, where it has one.
pub open spec fn member(
    w: WireView,
    names: Seq<Seq<char>>,
    types: Seq<Types>,
    chosen: Seq<Chosen>,
    i: int,
    j: int,
) -> Result<Option<Seq<u8>>, ErrorView> {
    if is_absent(types[j], chosen[j], i) {
        Ok(None)
    } else {
        match chosen_json(w, types[j], chosen[j], i) {
            Ok(json) => Ok(
                Some(quoted_bytes(vstd::utf8::encode_utf8(names[j])) + seq![58u8] + json),
            ),
            Err(e) => Err(e),
        }
    }
}

/// The members of the first `k` paths in the object of row `i`, with commas
/// between them. An absent or NULL value leaves its key out of the object.
pub open spec fn members(
    w: WireView,
    names: Seq<Seq<char>>,
    types: Seq<Types>,
    chosen: Seq<Chosen>,
    i: int,
    k: nat,
) -> Result<Seq<u8>, ErrorView>
    decreases k,
{
    if k == 0 {
        Ok(seq![])
    } else {
        match members(w, names, types, chosen, i, (k - 1) as nat) {
            Ok(s) => match member(w, names, types, chosen, i, k - 1) {
                Ok(Some(m)) => if s.len() == 0 {
                    Ok(m)
                } else {
                    Ok(s + seq![44u8] + m)
                },
                Ok(None) => Ok(s),
                Err(e) => Err(e),
            },
            Err(e) => Err(e),
        }
    }
}

/// The cell of row `i`: a string holding its object.
pub open spec fn object(
    w: WireView,
    names: Seq<Seq<char>>,
    types: Seq<Types>,
    chosen: Seq<Chosen>,
) -> spec_fn(int) -> Result<Seq<u8>, ErrorView> {
    |i: int|
        match members(w, names, types, chosen, i, names.len()) {
            Ok(s) => Ok(string(seq![123u8] + s + seq![125u8])),
            Err(e) => Err(e),
        }
}

/// `n` such cells.
pub open spec fn objects(
    w: WireView,
    names: Seq<Seq<char>>,
    types: Seq<Types>,
    chosen: Seq<Chosen>,
    n: nat,
) -> Result<Cells, ErrorView> {
    match claim::<Vec<u8>>(n, w.budget) {
        Ok(()) => table(object(w, names, types, chosen), n),
        Err(e) => Err(e),
    }
}

/// The error of a JSON v2 path with an unknown `Dynamic` version.
pub open spec fn path_version_error(version: nat, name: Seq<char>) -> ErrorView {
    ErrorView::BadResponse(
        "native protocol: unexpected Dynamic version "@ + decimal(version)
            + " in JSON v2 path \""@ + name + "\""@,
    )
}

/// The error of a flattened JSON path with an unknown `Dynamic` version.
pub open spec fn flat_path_version_error(version: nat) -> ErrorView {
    ErrorView::BadResponse(
        "native protocol: unexpected Dynamic version "@ + decimal(version) + " in a JSON v3 path"@,
    )
}

/// The type list of one JSON v2 path.
pub open spec fn path_types_at(w: WireView) -> spec_fn(int, Seq<char>) -> Read<Types> {
    |p: int, name: Seq<char>|
        match u64_at(w.bytes, p) {
            Ok((version, q)) => if version != 1 && version != 2 {
                Err(path_version_error(version as nat, name))
            } else {
                match dynamic_names_at(w, q, version == 1) {
                    Ok((names, r)) => match wire_types(names) {
                        Ok(types) => Ok((types, r)),
                        Err(e) => Err(e),
                    },
                    Err(e) => Err(e),
                }
            },
            Err(e) => Err(e),
        }
}

/// The data of one JSON v2 path.
pub open spec fn path_data_at(nested: Nested, w: WireView, n: nat) -> spec_fn(int, Types) -> Read<
    Chosen,
> {
    |p: int, types: Types| chosen_at(nested, w, p, n, types.ts)
}

/// The shared data of a JSON v2 column: Array(Tuple(String, String)), the paths
/// that spilled past the limit and their values.
pub open spec fn shared_data_at(nested: Nested, w: WireView, pos: int, n: nat) -> Read<()> {
    match offsets_at(w, pos, n) {
        Ok((offsets, p)) => match nested(p, Ty::String, last_or_zero(offsets)) {
            Ok((_, q)) => match nested(q, Ty::String, last_or_zero(offsets)) {
                Ok((_, r)) => Ok(((), r)),
                Err(e) => Err(e),
            },
            Err(e) => Err(e),
        },
        Err(e) => Err(e),
    }
}

/// A JSON v2 object column, after its version: the paths, a type list per path,
/// the data of every path, then the shared data.
pub open spec fn json_v2_at(nested: Nested, w: WireView, pos: int, n: nat) -> Read<Cells> {
    match paths_at(w, pos) {
        Ok((names, p)) => match claim::<Vec<(String, ColumnType)>>(names.len(), w.budget) {
            Ok(()) => match chain(names, path_types_at(w), p) {
                Ok((types, q)) => json_v2_data_at(nested, w, q, n, names, types),
                Err(e) => Err(e),
            },
            Err(e) => Err(e),
        },
        Err(e) => Err(e),
    }
}

/// The data phase of a JSON v2 object column.
pub open spec fn json_v2_data_at(
    nested: Nested,
    w: WireView,
    pos: int,
    n: nat,
    names: Seq<Seq<char>>,
    types: Seq<Types>,
) -> Read<Cells> {
    match claim::<Vec<u8>>(names.len(), w.budget) {
        Ok(()) => match claim::<Vec<ColumnData>>(names.len(), w.budget) {
            Ok(()) => match chain(types, path_data_at(nested, w, n), pos) {
                Ok((chosen, p)) => match shared_data_at(nested, w, p, n) {
                    Ok((_, q)) => match objects(w, names, types, chosen, n) {
                        Ok(cells) => Ok((cells, q)),
                        Err(e) => Err(e),
                    },
                    Err(e) => Err(e),
                },
                Err(e) => Err(e),
            },
            Err(e) => Err(e),
        },
        Err(e) => Err(e),
    }
}

/// The type list of one flattened JSON path.
pub open spec fn flat_path_types_at(w: WireView) -> spec_fn(int, Seq<char>) -> Read<Types> {
    |p: int, name: Seq<char>|
        match u64_at(w.bytes, p) {
            Ok((version, q)) => if version != DYNAMIC_FLATTENED {
                Err(flat_path_version_error(version as nat))
            } else {
                match flat_types_at(w, q) {
                    Ok((ts, r)) => Ok((all_shown(ts), r)),
                    Err(e) => Err(e),
                }
            },
            Err(e) => Err(e),
        }
}

/// The data of one flattened JSON path.
pub open spec fn flat_path_data_at(nested: Nested, w: WireView, n: nat) -> spec_fn(
    int,
    Types,
) -> Read<Chosen> {
    |p: int, types: Types| flat_chosen_at(nested, w, p, n, types.ts)
}

/// A flattened JSON object column, after its version. There is no shared-data
/// section in the flattened form.
pub open spec fn json_flat_at(nested: Nested, w: WireView, pos: int, n: nat) -> Read<Cells> {
    match paths_at(w, pos) {
        Ok((names, p)) => match claim::<Vec<ColumnType>>(names.len(), w.budget) {
            Ok(()) => match chain(names, flat_path_types_at(w), p) {
                Ok((types, q)) => json_flat_data_at(nested, w, q, n, names, types),
                Err(e) => Err(e),
            },
            Err(e) => Err(e),
        },
        Err(e) => Err(e),
    }
}

/// The data phase of a flattened JSON object column.
pub open spec fn json_flat_data_at(
    nested: Nested,
    w: WireView,
    pos: int,
    n: nat,
    names: Seq<Seq<char>>,
    types: Seq<Types>,
) -> Read<Cells> {
    match claim::<Vec<usize>>(names.len(), w.budget) {
        Ok(()) => match claim::<Vec<ColumnData>>(names.len(), w.budget) {
            Ok(()) => match chain(types, flat_path_data_at(nested, w, n), pos) {
                Ok((chosen, p)) => match objects(w, names, types, chosen, n) {
                    Ok(cells) => Ok((cells, p)),
                    Err(e) => Err(e),
                },
                Err(e) => Err(e),
            },
            Err(e) => Err(e),
        },
        Err(e) => Err(e),
    }
}

/// The error of an unknown JSON version.
pub open spec fn json_version_error(version: nat) -> ErrorView {
    ErrorView::BadResponse(
        "native protocol: unsupported JSON serialization version: "@ + decimal(version),
    )
}

/// JSON column payload, after the u64 serialization version.
///
/// The values are wire numbers, which are NOT the ordinals their names suggest:
/// - `1`: each row is a plain JSON string, which is what
///   `output_format_native_write_json_as_string` asks for
/// - `2`: path-based object format with Dynamic sub-columns + shared data
/// - `3`: FLATTENED, path-based with no shared data
pub open spec fn json_body_at(nested: Nested, w: WireView, pos: int, n: nat, version: u64) -> Read<
    Cells,
> {
    if version == JSON_SERIALIZATION_STRING {
        string_cells(w, pos, n)
    } else if version == 2 {
        json_v2_at(nested, w, pos, n)
    } else if version == 3 {
        json_flat_at(nested, w, pos, n)
    } else {
        Err(json_version_error(version as nat))
    }
}

/// A JSON column: its serialization version, then that version's form.
pub open spec fn json_column_at(nested: Nested, w: WireView, pos: int, n: nat) -> Read<Cells> {
    match u64_at(w.bytes, pos) {
        Ok((version, p)) => json_body_at(nested, w, p, n, version),
        Err(e) => Err(e),
    }
}

// ---------------------------------------------------------------------------
// Every column
// ---------------------------------------------------------------------------

/// The data of a column of type `t` with `rows` rows, whose sub-columns are
/// read by `nested`.
#[verifier::opaque]
pub open spec fn body_at(nested: Nested, w: WireView, pos: int, t: Ty, rows: u64) -> Read<Cells> {
    let n = rows as nat;
    match fixed_size(t) {
        Some(size) => fixed_cells(w, pos, n, size as nat),
        None => match t {
            Ty::Point => point_cells(w, pos, n),
            Ty::String => string_cells(w, pos, n),
            Ty::Json => string_cells(w, pos, n),
            Ty::Nullable(x) => nullable_at(nested, w, pos, n, *x),
            Ty::LowCardinality(x) => low_cardinality_at(nested, w, pos, n, *x),
            Ty::SimpleAggregateFunction(x) => nested(pos, *x, rows),
            Ty::Array(x) => array_at(nested, w, pos, n, *x),
            Ty::Tuple(ts) => tuple_at(nested, w, pos, n, ts),
            Ty::Mapping(k, v) => map_at(nested, w, pos, n, *k, *v),
            Ty::Variant(ts) => variant_at(nested, w, pos, n, ts),
            Ty::NewJson => json_column_at(nested, w, pos, n),
            _ => dynamic_at(nested, w, pos, n),
        },
    }
}

/// The data of a column of type `t` with `rows` rows, `depth` levels down.
///
/// A top-level column of a zero-row block takes no bytes at all; a nested
/// sub-column at zero elements may.
pub open spec fn read_at(w: WireView, pos: int, t: Ty, rows: u64, depth: nat) -> Read<Cells>
    decreases 33 - depth, 0nat,
{
    if depth > MAX_READ_DEPTH {
        Err(too_deep())
    } else if depth == 0 && rows == 0 {
        Ok((seq![], pos))
    } else if rows > usize::MAX {
        Err(too_many_rows(rows as nat))
    } else {
        body_at(nested_reader(w, depth + 1), w, pos, t, rows)
    }
}

/// How sub-columns `depth` levels down are read.
#[verifier::opaque]
pub open spec fn nested_reader(w: WireView, depth: nat) -> Nested
    decreases 33 - depth, 1nat,
{
    |pos: int, t: Ty, rows: u64|
        if depth <= 33 {
            read_at(w, pos, t, rows, depth)
        } else {
            Err(too_deep())
        }
}

/// What the reader of sub-columns finds is what reading at its depth finds.
pub proof fn lemma_nested_reader(w: WireView, pos: int, t: Ty, rows: u64, depth: nat)
    requires
        depth <= 33,
    ensures
        nested_reader(w, depth)(pos, t, rows) == read_at(w, pos, t, rows, depth),
{
    reveal(nested_reader);
}

// ---------------------------------------------------------------------------
// Readers
// ---------------------------------------------------------------------------

/// `r` is the outcome `s`: `n` cells, ending within `len` bytes.
pub open spec fn reads_cells(
    r: Result<(ColumnData, usize), Error>,
    s: Read<Cells>,
    n: nat,
    len: nat,
) -> bool {
    match r {
        Ok((v, p)) => {
            &&& s == Ok::<(Cells, int), ErrorView>((row_bytes(v@), p as int))
            &&& p <= len
            &&& v@.len() == n
        },
        Err(e) => s == Err::<(Cells, int), ErrorView>(e@),
    }
}

proof fn lemma_row_bytes_push(v: Seq<Vec<u8>>, c: Vec<u8>)
    ensures
        row_bytes(v.push(c)) == row_bytes(v).push(c@),
{
    assert(row_bytes(v.push(c)) =~= row_bytes(v).push(c@));
}

fn read_fixed_column(w: &Wire, pos: usize, n: usize, size: usize) -> (r: Result<
    (ColumnData, usize),
    Error,
>)
    requires
        pos <= w@.bytes.len(),
    ensures
        reads_cells(
            r,
            fixed_cells(w@, pos as int, n as nat, size as nat),
            n as nat,
            w@.bytes.len(),
        ),
{
    let mut out: ColumnData = with_cap(n, w.budget)?;
    let mut p: usize = pos;
    let mut i: usize = 0;
    let ghost read = fixed_reader(w@.bytes, size as nat);
    assert(row_bytes(out@) =~= seq![]);
    while i < n
        invariant
            i <= n,
            out@.len() == i,
            p <= w@.bytes.len(),
            read == fixed_reader(w@.bytes, size as nat),
            claim::<Vec<u8>>(n as nat, w@.budget) is Ok,
            many(read, pos as int, i as nat) == Ok::<(Cells, int), ErrorView>(
                (row_bytes(out@), p as int),
            ),
        decreases n - i,
    {
        match bytes_from(w.data, p, size) {
            Ok((cell, q)) => {
                proof {
                    lemma_row_bytes_push(out@, cell);
                }
                out.push(cell);
                p = q;
            },
            Err(e) => {
                proof {
                    lemma_many_err(read, pos as int, (i + 1) as nat, n as nat);
                }
                return Err(e);
            },
        }
        i = i + 1;
    }
    Ok((out, p))
}

/// Wrap `bytes` as a `RowBinary` String cell: varuint length then the bytes.
fn rowbinary_string(bytes: &[u8]) -> (row: Vec<u8>)
    ensures
        row@ == string(bytes@),
{
    let mut row: Vec<u8> = Vec::new();
    push_string(&mut row, bytes);
    assert(row@ =~= string(bytes@));
    row
}

fn read_string_column(w: &Wire, pos: usize, n: usize) -> (r: Result<(ColumnData, usize), Error>)
    requires
        pos <= w@.bytes.len(),
    ensures
        reads_cells(r, string_cells(w@, pos as int, n as nat), n as nat, w@.bytes.len()),
{
    let mut out: ColumnData = with_cap(n, w.budget)?;
    let mut p: usize = pos;
    let mut i: usize = 0;
    let ghost read = string_reader(w@.bytes);
    assert(row_bytes(out@) =~= seq![]);
    while i < n
        invariant
            i <= n,
            out@.len() == i,
            p <= w@.bytes.len(),
            read == string_reader(w@.bytes),
            claim::<Vec<u8>>(n as nat, w@.budget) is Ok,
            many(read, pos as int, i as nat) == Ok::<(Cells, int), ErrorView>(
                (row_bytes(out@), p as int),
            ),
        decreases n - i,
    {
        match string_from(w.data, p) {
            Ok((s, q)) => {
                let cell = rowbinary_string(s.as_slice());
                proof {
                    lemma_row_bytes_push(out@, cell);
                }
                out.push(cell);
                p = q;
            },
            Err(e) => {
                proof {
                    lemma_many_err(read, pos as int, (i + 1) as nat, n as nat);
                }
                return Err(e);
            },
        }
        i = i + 1;
    }
    Ok((out, p))
}

/// The cells of `a` and `b` joined row by row.
fn join_rows(a: &ColumnData, b: &ColumnData, n: usize) -> (out: ColumnData)
    requires
        n <= a@.len(),
        n <= b@.len(),
    ensures
        row_bytes(out@) == zipped(row_bytes(a@), row_bytes(b@), n as nat),
        out@.len() == n,
{
    let mut out: ColumnData = Vec::new();
    let mut i: usize = 0;
    while i < n
        invariant
            i <= n,
            n <= a@.len(),
            n <= b@.len(),
            out@.len() == i,
            forall|k: int| 0 <= k < i ==> (#[trigger] out@[k])@ == a@[k]@ + b@[k]@,
        decreases n - i,
    {
        let mut row: Vec<u8> = Vec::new();
        push_all(&mut row, a[i].as_slice());
        push_all(&mut row, b[i].as_slice());
        assert(row@ =~= a@[i as int]@ + b@[i as int]@);
        out.push(row);
        i = i + 1;
    }
    assert(row_bytes(out@) =~= zipped(row_bytes(a@), row_bytes(b@), n as nat));
    out
}

fn read_point_column(w: &Wire, pos: usize, n: usize) -> (r: Result<(ColumnData, usize), Error>)
    requires
        pos <= w@.bytes.len(),
    ensures
        reads_cells(r, point_cells(w@, pos as int, n as nat), n as nat, w@.bytes.len()),
{
    let (xs, p) = read_fixed_column(w, pos, n, 8)?;
    let (ys, q) = read_fixed_column(w, p, n, 8)?;
    Ok((join_rows(&xs, &ys, n), q))
}

fn read_nullable_column(w: &Wire, pos: usize, n: usize, inner: &ColumnType, depth: usize) -> (r:
    Result<(ColumnData, usize), Error>)
    requires
        pos <= w@.bytes.len(),
        depth <= MAX_READ_DEPTH,
    ensures
        reads_cells(
            r,
            nullable_at(
                nested_reader(w@, (depth + 1) as nat),
                w@,
                pos as int,
                n as nat,
                inner@,
            ),
            n as nat,
            w@.bytes.len(),
        ),
    decreases 33 - depth, 0nat,
{
    // Native: N null-flags (1 byte each: 1=null, 0=has-value) then N values.
    let (flags, p) = bytes_from(w.data, pos, n)?;
    // Every slot carries value bytes, nulls included.
    proof {
        lemma_nested_reader(w@, p as int, inner@, n as u64, (depth + 1) as nat);
    }
    let (values, q) = read_column_at(w, p, inner, n as u64, depth + 1)?;
    let mut out: ColumnData = with_cap(n, w.budget)?;
    let mut i: usize = 0;
    while i < n
        invariant
            i <= n,
            flags@.len() == n,
            values@.len() == n,
            out@.len() == i,
            forall|k: int|
                0 <= k < i ==> (#[trigger] out@[k])@ == if flags@[k] != 0 {
                    seq![1u8]
                } else {
                    seq![0u8] + values@[k]@
                },
        decreases n - i,
    {
        let mut row: Vec<u8> = Vec::new();
        if flags[i] != 0 {
            // NULL -- RowBinary: 1 byte = 1
            row.push(1);
            assert(row@ =~= seq![1u8]);
        } else {
            // Not null -- RowBinary: 0 byte then value
            row.push(0);
            push_all(&mut row, values[i].as_slice());
            assert(row@ =~= seq![0u8] + values@[i as int]@);
        }
        out.push(row);
        i = i + 1;
    }
    assert(row_bytes(out@) =~= nullable_cells(flags@, row_bytes(values@), n as nat));
    Ok((out, q))
}

/// Check the flags of a `LowCardinality` block.
///
/// Other clients both reject a global dictionary on the client-server path and
/// require the additional-keys bit; the typed decoder applies the same rule.
pub fn check_lc_flags(state: u64) -> (r: Result<(), Error>)
    ensures
        match r {
            Ok(()) => lc_flags(state) is Ok,
            Err(e) => lc_flags(state) == Err::<(), ErrorView>(e@),
        },
{
    if (state / 0x100) % 2 == 1 {
        return Err(
            Error::BadResponse(
                "native protocol: LowCardinality global dictionary is not supported on the client-server path (only per-block additional keys)".to_owned(),
            ),
        );
    }
    if (state / 0x200) % 2 == 0 {
        return Err(
            Error::BadResponse(
                "native protocol: LowCardinality block set neither the additional-keys nor the global-dictionary flag".to_owned(),
            ),
        );
    }
    Ok(())
}

/// The error of an index count that is not the row count.
pub fn error_index_count(indices: u64, n: usize) -> (e: Error)
    ensures
        e@ == index_count(indices as nat, n as nat),
{
    let mut text = "native protocol: LowCardinality index count ".to_owned();
    push_decimal(&mut text, indices as u128);
    text.append(" != row count ");
    push_decimal(&mut text, n as u128);
    Error::BadResponse(text)
}

/// The error of an index outside the dictionary.
pub fn error_index_range(idx: usize, size: usize) -> (e: Error)
    ensures
        e@ == index_range(idx as nat, size as nat),
{
    let mut text = "native protocol: LowCardinality index ".to_owned();
    push_decimal(&mut text, idx as u128);
    text.append(" out of range (dict size ");
    push_decimal(&mut text, size as u128);
    text.append(")");
    Error::BadResponse(text)
}

/// The index width that the flags announce.
pub fn lc_width_of(state: u64) -> (width: usize)
    ensures
        width == lc_width(state),
        width == 1 || width == 2 || width == 4 || width == 8,
{
    if state % 4 == 0 {
        1
    } else if state % 4 == 1 {
        2
    } else if state % 4 == 2 {
        4
    } else {
        8
    }
}

/// Read one little-endian index or discriminator of `width` bytes, as a machine
/// size.
pub fn index_from(d: &[u8], pos: usize, width: usize) -> (r: Result<(usize, usize), Error>)
    requires
        pos <= d@.len(),
        width <= 8,
    ensures
        match r {
            Ok((v, p)) => p <= d@.len() && exists|raw: nat|
                #![trigger clamped(raw)]
                le_at(d@, pos as int, width as nat) == Ok::<(nat, int), ErrorView>((raw, p as int))
                    && v == clamped(raw),
            Err(e) => le_at(d@, pos as int, width as nat) == Err::<(nat, int), ErrorView>(e@),
        },
{
    if width > d.len() - pos {
        return Err(Error::NotEnoughData);
    }
    let raw: u128 = le_number(d, pos, width);
    assert(le_at(d@, pos as int, width as nat) == Ok::<(nat, int), ErrorView>(
        (raw as nat, pos + width),
    ));
    let v: usize = if raw > usize::MAX as u128 {
        usize::MAX
    } else {
        raw as usize
    };
    assert(v == clamped(raw as nat));
    Ok((v, pos + width))
}

/// The cells that the indices at `pos` stand for.
fn read_lc_indices(
    w: &Wire,
    pos: usize,
    n: usize,
    state: u64,
    dict: &ColumnData,
    nullable: bool,
) -> (r: Result<(ColumnData, usize), Error>)
    requires
        pos <= w@.bytes.len(),
    ensures
        reads_cells(
            r,
            lc_indices_at(w@, pos as int, n as nat, state, row_bytes(dict@), nullable),
            n as nat,
            w@.bytes.len(),
        ),
{
    let (indices, start) = u64_from(w.data, pos)?;
    if indices != n as u64 {
        return Err(error_index_count(indices, n));
    }
    let width: usize = lc_width_of(state);
    let mut out: ColumnData = with_cap(n, w.budget)?;
    let mut p: usize = start;
    let mut i: usize = 0;
    let ghost cells = row_bytes(dict@);
    let ghost read = lc_reader(w@.bytes, cells, nullable, width as nat);
    assert(row_bytes(out@) =~= seq![]);
    while i < n
        invariant
            i <= n,
            width <= 8,
            out@.len() == i,
            p <= w@.bytes.len(),
            cells == row_bytes(dict@),
            read == lc_reader(w@.bytes, cells, nullable, width as nat),
            width == lc_width(state),
            indices == n,
            u64_at(w@.bytes, pos as int) == Ok::<(u64, int), ErrorView>((indices, start as int)),
            claim::<Vec<u8>>(n as nat, w@.budget) is Ok,
            many(read, start as int, i as nat) == Ok::<(Cells, int), ErrorView>(
                (row_bytes(out@), p as int),
            ),
        decreases n - i,
    {
        let step: Result<(Vec<u8>, usize), Error> = match index_from(w.data, p, width) {
            Ok((idx, q)) => {
                if nullable && idx == 0 {
                    // RowBinary Nullable null flag
                    let mut cell: Vec<u8> = Vec::new();
                    cell.push(1);
                    assert(cell@ =~= seq![1u8]);
                    Ok((cell, q))
                } else if idx >= dict.len() {
                    Err(error_index_range(idx, dict.len()))
                } else {
                    let mut cell: Vec<u8> = Vec::new();
                    if nullable {
                        // RowBinary not-null flag
                        cell.push(0);
                    }
                    push_all(&mut cell, dict[idx].as_slice());
                    proof {
                        if nullable {
                            assert(cell@ =~= seq![0u8] + cells[idx as int]);
                        } else {
                            assert(cell@ =~= cells[idx as int]);
                        }
                    }
                    Ok((cell, q))
                }
            },
            Err(e) => Err(e),
        };
        match step {
            Ok((cell, q)) => {
                proof {
                    lemma_row_bytes_push(out@, cell);
                }
                out.push(cell);
                p = q;
            },
            Err(e) => {
                proof {
                    lemma_many_err(read, start as int, (i + 1) as nat, n as nat);
                }
                return Err(e);
            },
        }
        i = i + 1;
    }
    Ok((out, p))
}

/// `LowCardinality` column reader.
fn read_low_cardinality_column(
    w: &Wire,
    pos: usize,
    n: usize,
    inner: &ColumnType,
    depth: usize,
) -> (r: Result<(ColumnData, usize), Error>)
    requires
        pos <= w@.bytes.len(),
        depth <= MAX_READ_DEPTH,
    ensures
        reads_cells(
            r,
            low_cardinality_at(
                nested_reader(w@, (depth + 1) as nat),
                w@,
                pos as int,
                n as nat,
                inner@,
            ),
            n as nat,
            w@.bytes.len(),
        ),
    decreases 33 - depth, 0nat,
{
    // The version word is not read here: it is this column's serialisation
    // prefix, consumed before any of the column's data.
    let (state, p) = u64_from(w.data, pos)?;
    let (dict_type, nullable): (&ColumnType, bool) = match inner {
        ColumnType::Nullable(t) => (t, true),
        other => (other, false),
    };
    check_lc_flags(state)?;
    let (size, q) = u64_from(w.data, p)?;
    proof {
        lemma_nested_reader(w@, q as int, dict_type@, size, (depth + 1) as nat);
    }
    let (dict, start) = read_column_at(w, q, dict_type, size, depth + 1)?;
    read_lc_indices(w, start, n, state, &dict, nullable)
}

/// Read `n` cumulative end-offsets.
pub fn read_offsets(w: &Wire, pos: usize, n: usize) -> (r: Result<(Vec<u64>, usize), Error>)
    requires
        pos <= w@.bytes.len(),
    ensures
        match r {
            Ok((v, p)) => offsets_at(w@, pos as int, n as nat) == Ok::<(Seq<u64>, int), ErrorView>(
                (v@, p as int),
            ) && p <= w@.bytes.len() && v@.len() == n,
            Err(e) => offsets_at(w@, pos as int, n as nat) == Err::<(Seq<u64>, int), ErrorView>(
                e@,
            ),
        },
{
    let mut out: Vec<u64> = with_cap(n, w.budget)?;
    let mut p: usize = pos;
    let mut i: usize = 0;
    let ghost read = offset_reader(w@.bytes);
    assert(out@ =~= seq![]);
    while i < n
        invariant
            i <= n,
            out@.len() == i,
            p <= w@.bytes.len(),
            read == offset_reader(w@.bytes),
            claim::<u64>(n as nat, w@.budget) is Ok,
            many(read, pos as int, i as nat) == Ok::<(Seq<u64>, int), ErrorView>((out@, p as int)),
        decreases n - i,
    {
        match u64_from(w.data, p) {
            Ok((v, q)) => {
                out.push(v);
                p = q;
            },
            Err(e) => {
                proof {
                    lemma_many_err(read, pos as int, (i + 1) as nat, n as nat);
                }
                return Err(e);
            },
        }
        i = i + 1;
    }
    Ok((out, p))
}

/// The element count that the offsets end with.
pub fn total_of(offsets: &Vec<u64>) -> (n: u64)
    ensures
        n == last_or_zero(offsets@),
{
    if offsets.len() == 0 {
        0
    } else {
        offsets[offsets.len() - 1]
    }
}

/// Narrow one cumulative end-offset to a slice bound.
///
/// An offset below its predecessor, or past the elements the sub-column
/// actually carries, would index out of range.
pub fn checked_span(end: u64, prev: usize, available: usize, what: &str) -> (r: Result<
    usize,
    Error,
>)
    ensures
        match r {
            Ok(e) => e == clamped(end as nat) && prev <= e <= available,
            Err(e) => {
                &&& clamped(end as nat) < prev || clamped(end as nat) > available
                &&& e@ == span_error(
                    what@,
                    clamped(end as nat),
                    prev as nat,
                    available as nat,
                )
            },
        },
{
    let end: usize = if end > usize::MAX as u64 {
        usize::MAX
    } else {
        end as usize
    };
    if end < prev || end > available {
        let mut text = "native protocol: ".to_owned();
        text.append(what);
        text.append(" column offset ");
        push_decimal(&mut text, end as u128);
        text.append(" is outside ");
        push_decimal(&mut text, prev as u128);
        text.append("..=");
        push_decimal(&mut text, available as u128);
        return Err(Error::BadResponse(text));
    }
    Ok(end)
}

proof fn lemma_ends_err(offsets: Seq<u64>, available: nat, what: Seq<char>, k: int)
    requires
        0 <= k <= offsets.len(),
        ends_of(offsets.take(k), available, what) is Err,
    ensures
        ends_of(offsets, available, what) == ends_of(offsets.take(k), available, what),
    decreases offsets.len() - k,
{
    if k < offsets.len() {
        assert(offsets.take(k + 1).drop_last() =~= offsets.take(k));
        lemma_ends_err(offsets, available, what, k + 1);
    } else {
        assert(offsets.take(k) =~= offsets);
    }
}

/// The ends as mathematical numbers.
pub open spec fn end_nats(ends: Seq<usize>) -> Seq<nat> {
    ends.map_values(|e: usize| e as nat)
}

/// The ends of the spans that the offsets cut.
pub fn span_ends(offsets: &Vec<u64>, available: usize, what: &str) -> (r: Result<
    Vec<usize>,
    Error,
>)
    ensures
        match r {
            Ok(ends) => {
                &&& ends_of(offsets@, available as nat, what@) == Ok::<Seq<nat>, ErrorView>(
                    end_nats(ends@),
                )
                &&& ends@.len() == offsets@.len()
                &&& forall|i: int, j: int| 0 <= i <= j < ends@.len() ==> ends@[i] <= ends@[j]
                &&& forall|i: int| 0 <= i < ends@.len() ==> ends@[i] <= available
            },
            Err(e) => ends_of(offsets@, available as nat, what@) == Err::<Seq<nat>, ErrorView>(
                e@,
            ),
        },
{
    let mut ends: Vec<usize> = Vec::new();
    let mut prev: usize = 0;
    let mut i: usize = 0;
    assert(end_nats(ends@) =~= seq![]);
    while i < offsets.len()
        invariant
            i <= offsets.len(),
            ends@.len() == i,
            prev == last_end(end_nats(ends@)),
            ends_of(offsets@.take(i as int), available as nat, what@) == Ok::<
                Seq<nat>,
                ErrorView,
            >(end_nats(ends@)),
            forall|i: int, j: int| 0 <= i <= j < ends@.len() ==> ends@[i] <= ends@[j],
            forall|i: int| 0 <= i < ends@.len() ==> ends@[i] <= available,
        decreases offsets.len() - i,
    {
        proof {
            assert(offsets@.take(i + 1).drop_last() =~= offsets@.take(i as int));
            if ends@.len() > 0 {
                assert(end_nats(ends@).last() == ends@.last());
            }
        }
        match checked_span(offsets[i], prev, available, what) {
            Ok(end) => {
                proof {
                    assert(end_nats(ends@.push(end)) =~= end_nats(ends@).push(end as nat));
                }
                ends.push(end);
                prev = end;
            },
            Err(e) => {
                proof {
                    lemma_ends_err(offsets@, available as nat, what@, i + 1);
                }
                return Err(e);
            },
        }
        i = i + 1;
    }
    assert(offsets@.take(i as int) =~= offsets@);
    Ok(ends)
}

/// The array cell of the items from `from` to `to`.
fn counted_cell(items: &ColumnData, from: usize, to: usize) -> (row: Vec<u8>)
    requires
        from <= to <= items@.len(),
    ensures
        row@ == counted(row_bytes(items@).subrange(from as int, to as int)),
{
    let mut row: Vec<u8> = Vec::new();
    push_var_uint(&mut row, (to - from) as u64);
    let mut i: usize = from;
    let ghost cells = row_bytes(items@);
    let ghost head = var_uint((to - from) as nat);
    assert(row@ =~= head + flat(cells.subrange(from as int, from as int)));
    while i < to
        invariant
            from <= i <= to <= items@.len(),
            cells == row_bytes(items@),
            row@ == head + flat(cells.subrange(from as int, i as int)),
        decreases to - i,
    {
        proof {
            assert(cells.subrange(from as int, i + 1).drop_last() =~= cells.subrange(
                from as int,
                i as int,
            ));
        }
        push_all(&mut row, items[i].as_slice());
        i = i + 1;
        assert(row@ =~= head + flat(cells.subrange(from as int, i as int)));
    }
    row
}

/// The arrays that the offsets cut the items into.
fn cut_rows(items: &ColumnData, offsets: &Vec<u64>, what: &str) -> (r: Result<ColumnData, Error>)
    ensures
        match r {
            Ok(out) => cut_arrays(row_bytes(items@), offsets@, what@) == Ok::<Cells, ErrorView>(
                row_bytes(out@),
            ) && out@.len() == offsets@.len(),
            Err(e) => cut_arrays(row_bytes(items@), offsets@, what@) == Err::<Cells, ErrorView>(
                e@,
            ),
        },
{
    let ends = span_ends(offsets, items.len(), what)?;
    let mut out: ColumnData = Vec::new();
    let mut i: usize = 0;
    let mut prev: usize = 0;
    let ghost cells = row_bytes(items@);
    let ghost bounds = end_nats(ends@);
    while i < ends.len()
        invariant
            i <= ends.len(),
            out@.len() == i,
            cells == row_bytes(items@),
            bounds == end_nats(ends@),
            forall|i: int, j: int| 0 <= i <= j < ends@.len() ==> ends@[i] <= ends@[j],
            forall|i: int| 0 <= i < ends@.len() ==> ends@[i] <= items@.len(),
            prev == if i == 0 {
                0
            } else {
                ends@[i - 1]
            },
            forall|k: int|
                0 <= k < i ==> (#[trigger] out@[k])@ == counted(span(cells, bounds, k)),
        decreases ends.len() - i,
    {
        let end: usize = ends[i];
        proof {
            if i > 0 {
                assert(ends@[i - 1] <= ends@[i as int]);
                assert(bounds[i - 1] == ends@[i - 1]);
            }
            assert(bounds[i as int] == end);
        }
        let row = counted_cell(items, prev, end);
        out.push(row);
        prev = end;
        i = i + 1;
    }
    assert(row_bytes(out@) =~= array_cells(cells, bounds));
    Ok(out)
}

/// Array(T) column reader, `varuint(count) + count x T` per `RowBinary` row.
///
/// ```text
/// n x u64             cumulative end-offsets (last = total element count)
/// total_elements x T  values packed as a regular T column
/// ```
fn read_array_column(w: &Wire, pos: usize, n: usize, inner: &ColumnType, depth: usize) -> (r: Result<
    (ColumnData, usize),
    Error,
>)
    requires
        pos <= w@.bytes.len(),
        depth <= MAX_READ_DEPTH,
    ensures
        reads_cells(
            r,
            array_at(nested_reader(w@, (depth + 1) as nat), w@, pos as int, n as nat, inner@),
            n as nat,
            w@.bytes.len(),
        ),
    decreases 33 - depth, 0nat,
{
    let (offsets, p) = read_offsets(w, pos, n)?;
    let total: u64 = total_of(&offsets);
    proof {
        lemma_nested_reader(w@, p as int, inner@, total, (depth + 1) as nat);
    }
    let (items, q) = read_column_at(w, p, inner, total, depth + 1)?;
    with_cap::<Vec<u8>>(n, w.budget)?;
    let out = cut_rows(&items, &offsets, "Array")?;
    Ok((out, q))
}

/// Map(K, V) column reader, `varuint(count) + count x (K + V)` per `RowBinary` row.
///
/// ```text
/// n x u64            cumulative end-offsets
/// total_entries x K  key column
/// total_entries x V  value column
/// ```
fn read_map_column(
    w: &Wire,
    pos: usize,
    n: usize,
    key_type: &ColumnType,
    val_type: &ColumnType,
    depth: usize,
) -> (r: Result<(ColumnData, usize), Error>)
    requires
        pos <= w@.bytes.len(),
        depth <= MAX_READ_DEPTH,
    ensures
        reads_cells(
            r,
            map_at(
                nested_reader(w@, (depth + 1) as nat),
                w@,
                pos as int,
                n as nat,
                key_type@,
                val_type@,
            ),
            n as nat,
            w@.bytes.len(),
        ),
    decreases 33 - depth, 0nat,
{
    let (offsets, p) = read_offsets(w, pos, n)?;
    let total: u64 = total_of(&offsets);
    proof {
        lemma_nested_reader(w@, p as int, key_type@, total, (depth + 1) as nat);
    }
    let (keys, q) = read_column_at(w, p, key_type, total, depth + 1)?;
    proof {
        lemma_nested_reader(w@, q as int, val_type@, total, (depth + 1) as nat);
    }
    let (vals, end) = read_column_at(w, q, val_type, total, depth + 1)?;
    with_cap::<Vec<u8>>(n, w.budget)?;
    let pairs: usize = if keys.len() <= vals.len() {
        keys.len()
    } else {
        vals.len()
    };
    let items = join_rows(&keys, &vals, pairs);
    let out = cut_rows(&items, &offsets, "Map")?;
    Ok((out, end))
}

/// The cells of a list of columns.
pub open spec fn tables(cols: Seq<ColumnData>) -> Seq<Cells> {
    cols.map_values(|c: ColumnData| row_bytes(c@))
}

proof fn lemma_columns_err(nested: Nested, pos: int, ts: Seq<Ty>, counts: Seq<u64>, k: int)
    requires
        0 <= k <= ts.len(),
        columns_at(nested, pos, ts.take(k), counts) is Err,
    ensures
        columns_at(nested, pos, ts, counts) == columns_at(nested, pos, ts.take(k), counts),
    decreases ts.len() - k,
{
    if k < ts.len() {
        assert(ts.take(k + 1).drop_last() =~= ts.take(k));
        lemma_columns_err(nested, pos, ts, counts, k + 1);
    } else {
        assert(ts.take(k) =~= ts);
    }
}

/// Read sub-columns of `types` with `counts` rows, one behind the other.
fn read_columns(w: &Wire, pos: usize, types: &Vec<ColumnType>, counts: &Vec<u64>, depth: usize) -> (r:
    Result<(Vec<ColumnData>, usize), Error>)
    requires
        pos <= w@.bytes.len(),
        depth <= MAX_READ_DEPTH,
        counts@.len() == types@.len(),
    ensures
        ({
            let s = columns_at(
                nested_reader(w@, (depth + 1) as nat),
                pos as int,
                tys(types@),
                counts@,
            );
            match r {
                Ok((cols, p)) => {
                    &&& s == Ok::<(Seq<Cells>, int), ErrorView>((tables(cols@), p as int))
                    &&& p <= w@.bytes.len()
                    &&& cols@.len() == types@.len()
                    &&& forall|i: int|
                        0 <= i < cols@.len() ==> (#[trigger] cols@[i])@.len() == counts@[i]
                },
                Err(e) => s == Err::<(Seq<Cells>, int), ErrorView>(e@),
            }
        }),
    decreases 33 - depth, 0nat,
{
    let mut cols: Vec<ColumnData> = Vec::new();
    let mut p: usize = pos;
    let mut i: usize = 0;
    let ghost nested = nested_reader(w@, (depth + 1) as nat);
    let ghost ts = tys(types@);
    assert(tables(cols@) =~= seq![]);
    while i < types.len()
        invariant
            i <= types.len(),
            depth <= MAX_READ_DEPTH,
            counts@.len() == types@.len(),
            p <= w@.bytes.len(),
            nested == nested_reader(w@, (depth + 1) as nat),
            ts == tys(types@),
            cols@.len() == i,
            forall|i: int| 0 <= i < cols@.len() ==> (#[trigger] cols@[i])@.len() == counts@[i],
            columns_at(nested, pos as int, ts.take(i as int), counts@) == Ok::<
                (Seq<Cells>, int),
                ErrorView,
            >((tables(cols@), p as int)),
        decreases types.len() - i,
    {
        proof {
            assert(ts.take(i + 1).drop_last() =~= ts.take(i as int));
            assert(ts.take(i + 1).last() == types@[i as int]@);
            lemma_nested_reader(
                w@,
                p as int,
                ts[i as int],
                counts@[i as int],
                (depth + 1) as nat,
            );
        }
        match read_column_at(w, p, &types[i], counts[i], depth + 1) {
            Ok((cells, q)) => {
                proof {
                    assert(tables(cols@.push(cells)) =~= tables(cols@).push(row_bytes(cells@)));
                }
                cols.push(cells);
                p = q;
            },
            Err(e) => {
                proof {
                    lemma_columns_err(nested, pos as int, ts, counts@, i + 1);
                }
                return Err(e);
            },
        }
        i = i + 1;
    }
    assert(ts.take(i as int) =~= ts);
    Ok((cols, p))
}

/// Row `at` of a tuple: the cells of every field, joined.
fn joined_row(cols: &Vec<ColumnData>, at: usize) -> (row: Vec<u8>)
    requires
        forall|i: int| 0 <= i < cols@.len() ==> at < (#[trigger] cols@[i])@.len(),
    ensures
        row@ == flat(column(tables(cols@), at as int)),
{
    let mut row: Vec<u8> = Vec::new();
    let mut i: usize = 0;
    let ghost all = column(tables(cols@), at as int);
    assert(row@ =~= flat(all.take(0)));
    while i < cols.len()
        invariant
            i <= cols.len(),
            all == column(tables(cols@), at as int),
            forall|i: int| 0 <= i < cols@.len() ==> at < (#[trigger] cols@[i])@.len(),
            row@ == flat(all.take(i as int)),
        decreases cols.len() - i,
    {
        proof {
            assert(all.take(i + 1).drop_last() =~= all.take(i as int));
            assert(all[i as int] == cols@[i as int]@[at as int]@);
        }
        push_all(&mut row, cols[i][at].as_slice());
        i = i + 1;
        assert(row@ =~= flat(all.take(i as int)));
    }
    assert(all.take(i as int) =~= all);
    row
}

/// Tuple(T1, T2, ...) column reader: each field is its own columnar block in
/// field order, concatenated per `RowBinary` row.
fn read_tuple_column(w: &Wire, pos: usize, n: usize, fields: &Vec<ColumnType>, depth: usize) -> (r:
    Result<(ColumnData, usize), Error>)
    requires
        pos <= w@.bytes.len(),
        depth <= MAX_READ_DEPTH,
    ensures
        reads_cells(
            r,
            tuple_at(
                nested_reader(w@, (depth + 1) as nat),
                w@,
                pos as int,
                n as nat,
                tys(fields@),
            ),
            n as nat,
            w@.bytes.len(),
        ),
    decreases 33 - depth, 1nat,
{
    let mut out: ColumnData = with_cap(n, w.budget)?;
    let mut counts: Vec<u64> = Vec::new();
    let mut i: usize = 0;
    while i < fields.len()
        invariant
            i <= fields.len(),
            counts@.len() == i,
            forall|k: int| 0 <= k < i ==> counts@[k] == n as u64,
        decreases fields.len() - i,
    {
        counts.push(n as u64);
        i = i + 1;
    }
    assert(counts@ =~= same_count(n as nat, tys(fields@).len()));
    let (cols, p) = read_columns(w, pos, fields, &counts, depth)?;
    let mut i: usize = 0;
    while i < n
        invariant
            i <= n,
            out@.len() == i,
            forall|i: int| 0 <= i < cols@.len() ==> (#[trigger] cols@[i])@.len() == n,
            forall|k: int|
                0 <= k < i ==> (#[trigger] out@[k])@ == flat(column(tables(cols@), k)),
        decreases n - i,
    {
        out.push(joined_row(&cols, i));
        i = i + 1;
    }
    assert(row_bytes(out@) =~= tuple_cells(tables(cols@), n as nat));
    Ok((out, p))
}

/// The types that a discriminator chooses from.
pub struct TypeList {
    pub types: Vec<ColumnType>,
    pub hidden: Vec<bool>,
}

impl View for TypeList {
    type V = Types;

    open spec fn view(&self) -> Types {
        Types { ts: tys(self.types@), hidden: self.hidden@ }
    }
}

impl TypeList {
    /// Every type is hidden or not.
    pub open spec fn wf(&self) -> bool {
        self.hidden@.len() == self.types@.len()
    }
}

/// Rows whose values are chosen by a discriminator, with the place of every row
/// in the sub-column it owns a value of.
pub struct Picked {
    pub discs: Vec<usize>,
    pub places: Vec<usize>,
    pub cols: Vec<ColumnData>,
}

impl View for Picked {
    type V = Chosen;

    open spec fn view(&self) -> Chosen {
        Chosen { discs: end_nats(self.discs@), cols: tables(self.cols@) }
    }
}

/// `places` are the places of rows with the discriminators `discs` below `k`.
pub open spec fn are_places(places: Seq<usize>, discs: Seq<nat>, k: nat) -> bool {
    &&& places.len() == discs.len()
    &&& forall|i: int|
        0 <= i < discs.len() && discs[i] < k ==> #[trigger] places[i] == tally(
            discs.take(i),
            discs[i],
        )
}

impl Picked {
    /// The places are those of the rows, and there is a sub-column per type.
    pub open spec fn wf(&self, k: nat, n: nat) -> bool {
        &&& are_places(self.places@, end_nats(self.discs@), k)
        &&& self.cols@.len() == k
        &&& self.discs@.len() == n
    }
}

proof fn lemma_tally_bound(list: Seq<nat>, value: nat)
    ensures
        tally(list, value) <= list.len(),
    decreases list.len(),
{
    if list.len() > 0 {
        lemma_tally_bound(list.drop_last(), value);
    }
}

/// The rows that each of `k` sub-columns owns, and the place of every row in
/// its sub-column.
fn share_out(discs: &Vec<usize>, k: usize) -> (out: (Vec<u64>, Vec<usize>))
    ensures
        out.0@ == tallies(end_nats(discs@), k as nat),
        are_places(out.1@, end_nats(discs@), k as nat),
{
    let mut counts: Vec<u64> = Vec::new();
    let mut i: usize = 0;
    while i < k
        invariant
            i <= k,
            counts@.len() == i,
            forall|c: int| 0 <= c < i ==> counts@[c] == 0,
        decreases k - i,
    {
        counts.push(0);
        i = i + 1;
    }
    let mut places: Vec<usize> = Vec::new();
    let mut i: usize = 0;
    let ghost all = end_nats(discs@);
    while i < discs.len()
        invariant
            i <= discs.len(),
            all == end_nats(discs@),
            counts@.len() == k,
            places@.len() == i,
            forall|c: int| 0 <= c < k ==> counts@[c] == tally(all.take(i as int), c as nat),
            forall|r: int|
                0 <= r < i && all[r] < k ==> #[trigger] places@[r] == tally(all.take(r), all[r]),
        decreases discs.len() - i,
    {
        let d: usize = discs[i];
        proof {
            assert(all.take(i + 1).drop_last() =~= all.take(i as int));
            assert(all.take(i + 1).last() == d);
        }
        if d < k {
            let count: u64 = counts[d];
            proof {
                lemma_tally_bound(all.take(i as int), d as nat);
            }
            places.push(count as usize);
            counts.set(d, count + 1);
        } else {
            places.push(0);
        }
        i = i + 1;
    }
    proof {
        assert(all.take(i as int) =~= all);
        assert(counts@ =~= tallies(all, k as nat));
    }
    (counts, places)
}

/// Read the sub-columns that the discriminators share out.
fn read_shared_out(
    w: &Wire,
    pos: usize,
    discs: Vec<usize>,
    types: &Vec<ColumnType>,
    depth: usize,
) -> (r: Result<(Picked, usize), Error>)
    requires
        pos <= w@.bytes.len(),
        depth <= MAX_READ_DEPTH,
    ensures
        picks(
            r,
            shared_out(
                nested_reader(w@, (depth + 1) as nat),
                w@,
                pos as int,
                end_nats(discs@),
                tys(types@),
            ),
            types@.len(),
            discs@.len(),
            w@.bytes.len(),
        ),
    decreases 33 - depth, 1nat,
{
    let (counts, places) = share_out(&discs, types.len());
    with_cap::<ColumnData>(types.len(), w.budget)?;
    let (cols, p) = read_columns(w, pos, types, &counts, depth)?;
    Ok((Picked { discs, places, cols }, p))
}

/// `r` is the outcome `s`: `n` rows over `k` types, ending within `len` bytes.
pub open spec fn picks(
    r: Result<(Picked, usize), Error>,
    s: Read<Chosen>,
    k: nat,
    n: nat,
    len: nat,
) -> bool {
    match r {
        Ok((v, p)) => {
            &&& s == Ok::<(Chosen, int), ErrorView>((v@, p as int))
            &&& p <= len
            &&& v.wf(k, n)
        },
        Err(e) => s == Err::<(Chosen, int), ErrorView>(e@),
    }
}

/// Read one discriminator byte per row, then the sub-columns.
fn read_picked(w: &Wire, pos: usize, n: usize, types: &Vec<ColumnType>, depth: usize) -> (r: Result<
    (Picked, usize),
    Error,
>)
    requires
        pos <= w@.bytes.len(),
        depth <= MAX_READ_DEPTH,
    ensures
        picks(
            r,
            chosen_at(
                nested_reader(w@, (depth + 1) as nat),
                w@,
                pos as int,
                n as nat,
                tys(types@),
            ),
            types@.len(),
            n as nat,
            w@.bytes.len(),
        ),
    decreases 33 - depth, 2nat,
{
    let (bytes, p) = bytes_from(w.data, pos, n)?;
    let mut discs: Vec<usize> = Vec::new();
    let mut i: usize = 0;
    while i < bytes.len()
        invariant
            i <= bytes.len(),
            discs@.len() == i,
            forall|k: int| 0 <= k < i ==> #[trigger] discs@[k] == bytes@[k] as usize,
        decreases bytes.len() - i,
    {
        discs.push(bytes[i] as usize);
        i = i + 1;
    }
    assert(end_nats(discs@) =~= as_nats(bytes@));
    read_shared_out(w, p, discs, types, depth)
}

/// The JSON text of the value of row `i`.
fn picked_json(w: &Wire, types: &TypeList, picked: &Picked, i: usize) -> (r: Result<Vec<u8>, Error>)
    requires
        types.wf(),
        i < picked.discs@.len(),
        picked.wf(types.types@.len(), picked.discs@.len()),
        picked.discs@[i as int] < types.types@.len(),
    ensures
        match r {
            Ok(json) => chosen_json(w@, types@, picked@, i as int) == Ok::<Seq<u8>, ErrorView>(
                json@,
            ),
            Err(e) => chosen_json(w@, types@, picked@, i as int) == Err::<Seq<u8>, ErrorView>(
                e@,
            ),
        },
{
    let d: usize = picked.discs[i];
    proof {
        assert(picked@.discs[i as int] == d);
        assert(picked.places@[i as int] == tally(picked@.discs.take(i as int), d as nat));
        assert(picked@.cols[d as int] == row_bytes(picked.cols@[d as int]@));
        assert(types@.ts[d as int] == types.types@[d as int]@);
    }
    let cursor: usize = picked.places[i];
    let cells = &picked.cols[d];
    if cursor < cells.len() {
        rowbinary_to_json(cells[cursor].as_slice(), &types.types[d], w.texts)
    } else {
        Ok(null_json())
    }
}

/// The JSON text of an absent value.
fn null_json() -> (out: Vec<u8>)
    ensures
        out@ == null_text(),
{
    let mut out: Vec<u8> = Vec::new();
    push_all(&mut out, &[110, 117, 108, 108]);
    assert(out@ =~= null_text());
    out
}

/// Whether row `i` has no value to show.
fn absent(types: &TypeList, picked: &Picked, i: usize) -> (yes: bool)
    requires
        types.wf(),
        i < picked.discs@.len(),
    ensures
        yes == is_absent(types@, picked@, i as int),
        !yes ==> picked.discs@[i as int] < types.types@.len(),
{
    let d: usize = picked.discs[i];
    assert(picked@.discs[i as int] == d);
    d >= types.types.len() || types.hidden[d]
}

/// Show every row as a document.
fn show_documents(w: &Wire, types: &TypeList, picked: &Picked, n: usize) -> (r: Result<
    ColumnData,
    Error,
>)
    requires
        types.wf(),
        picked.wf(types.types@.len(), n as nat),
    ensures
        match r {
            Ok(out) => documents(w@, types@, picked@, n as nat) == Ok::<Cells, ErrorView>(
                row_bytes(out@),
            ) && out@.len() == n,
            Err(e) => documents(w@, types@, picked@, n as nat) == Err::<Cells, ErrorView>(e@),
        },
{
    let mut out: ColumnData = with_cap(n, w.budget)?;
    let mut i: usize = 0;
    let ghost f = document(w@, types@, picked@);
    assert(row_bytes(out@) =~= seq![]);
    while i < n
        invariant
            i <= n,
            types.wf(),
            picked.wf(types.types@.len(), n as nat),
            out@.len() == i,
            f == document(w@, types@, picked@),
            claim::<Vec<u8>>(n as nat, w@.budget) is Ok,
            table(f, i as nat) == Ok::<Cells, ErrorView>(row_bytes(out@)),
        decreases n - i,
    {
        let step = if absent(types, picked, i) {
            Ok(null_json())
        } else {
            picked_json(w, types, picked, i)
        };
        match step {
            Ok(json) => {
                let cell = rowbinary_string(json.as_slice());
                proof {
                    lemma_row_bytes_push(out@, cell);
                }
                out.push(cell);
            },
            Err(e) => {
                proof {
                    lemma_table_err(f, (i + 1) as nat, n as nat);
                }
                return Err(e);
            },
        }
        i = i + 1;
    }
    Ok(out)
}

/// A list of types none of which is hidden.
fn shown_types(types: Vec<ColumnType>) -> (out: TypeList)
    ensures
        out.wf(),
        out@ == all_shown(tys(types@)),
        out.types == types,
{
    let mut hidden: Vec<bool> = Vec::new();
    let mut i: usize = 0;
    while i < types.len()
        invariant
            i <= types.len(),
            hidden@.len() == i,
            forall|k: int| 0 <= k < i ==> hidden@[k] == false,
        decreases types.len() - i,
    {
        hidden.push(false);
        i = i + 1;
    }
    let out = TypeList { types, hidden };
    assert(out@.hidden =~= all_shown(tys(types@)).hidden);
    out
}

/// Variant(T1, T2, ...) column reader, one RowBinary-String JSON cell per row.
///
/// ```text
/// n x u8   discriminators  (255 = NULL, else the type index in definition order)
/// per type, in definition order: the rows whose discriminator selected it
/// ```
fn read_variant_column(w: &Wire, pos: usize, n: usize, types: &Vec<ColumnType>, depth: usize) -> (r:
    Result<(ColumnData, usize), Error>)
    requires
        pos <= w@.bytes.len(),
        depth <= MAX_READ_DEPTH,
    ensures
        reads_cells(
            r,
            variant_at(
                nested_reader(w@, (depth + 1) as nat),
                w@,
                pos as int,
                n as nat,
                tys(types@),
            ),
            n as nat,
            w@.bytes.len(),
        ),
    decreases 33 - depth, 3nat,
{
    if types.len() > MAX_VARIANT_TYPES {
        let mut text = "native protocol: Variant declares ".to_owned();
        push_decimal(&mut text, types.len() as u128);
        text.append(" arms, above the ");
        push_decimal(&mut text, MAX_VARIANT_TYPES as u128);
        text.append(" cap");
        return Err(Error::BadResponse(text));
    }
    // The mode word is not read here: it is this column's serialisation
    // prefix, consumed before any of the column's data.
    let (picked, p) = read_picked(w, pos, n, types, depth)?;
    let list = shown_types(ColumnType::clone_all(types));
    let out = show_documents(w, &list, &picked, n)?;
    Ok((out, p))
}

/// Read and check the `Variant` discriminator-serialization mode.
pub fn read_variant_mode(d: &[u8], pos: usize) -> (r: Result<((), usize), Error>)
    requires
        pos <= d@.len(),
    ensures
        match r {
            Ok((_, p)) => variant_mode_at(d@, pos as int) == Ok::<((), int), ErrorView>(
                ((), p as int),
            ) && p <= d@.len(),
            Err(e) => variant_mode_at(d@, pos as int) == Err::<((), int), ErrorView>(e@),
        },
{
    let (mode, p) = u64_from(d, pos)?;
    if mode != VARIANT_MODE_BASIC {
        let mut text = "native protocol: Variant discriminator serialization mode ".to_owned();
        push_decimal(&mut text, mode as u128);
        text.append(" is not supported (only basic, 0)");
        return Err(Error::BadResponse(text));
    }
    Ok(((), p))
}

/// Read a varuint header count, rejecting anything above `cap` before it sizes
/// a list no payload has to back.
fn read_capped_count(d: &[u8], pos: usize, cap: usize, what: &str) -> (r: Result<
    (usize, usize),
    Error,
>)
    requires
        pos <= d@.len(),
    ensures
        match r {
            Ok((count, p)) => capped_count_at(d@, pos as int, cap as nat, what@) == Ok::<
                (nat, int),
                ErrorView,
            >((count as nat, p as int)) && p <= d@.len() && count <= cap,
            Err(e) => capped_count_at(d@, pos as int, cap as nat, what@) == Err::<
                (nat, int),
                ErrorView,
            >(e@),
        },
{
    let (raw, p) = var_uint_from(d, pos)?;
    if raw > cap as u64 {
        let mut text = "native protocol: ".to_owned();
        text.append(what);
        text.append(" count ");
        push_decimal(&mut text, raw as u128);
        text.append(" is above the ");
        push_decimal(&mut text, cap as u128);
        text.append(" cap");
        return Err(Error::BadResponse(text));
    }
    Ok((raw as usize, p))
}

/// `SharedVariant` spill values ride as a String sub-column; any other name the
/// parser rejects would desynchronise the stream, so it fails loud.
fn wire_type(name: &str) -> (r: Result<ColumnType, Error>)
    ensures
        match r {
            Ok(t) => wire_type_of(name@) == Ok::<Ty, ErrorView>(t@),
            Err(e) => wire_type_of(name@) == Err::<Ty, ErrorView>(e@),
        },
{
    if is_shared_variant(name) {
        return Ok(ColumnType::String);
    }
    match ColumnType::parse(name) {
        Some(t) => Ok(t),
        None => {
            let mut text = "native protocol: unsupported nested column type '".to_owned();
            text.append(name);
            text.append("'");
            Err(Error::BadResponse(text))
        },
    }
}

/// Whether `name` is the marker for values spilled out of a `Dynamic` type list.
fn is_shared_variant(name: &str) -> (yes: bool)
    ensures
        yes == (name@ == "SharedVariant"@),
{
    let chars = chars_of(name);
    spells(chars.as_slice(), "SharedVariant")
}

/// The types that the names stand for.
fn wire_type_list(names: &Vec<String>) -> (r: Result<TypeList, Error>)
    ensures
        match r {
            Ok(list) => wire_types(name_texts(names@)) == Ok::<Types, ErrorView>(list@)
                && list.wf(),
            Err(e) => wire_types(name_texts(names@)) == Err::<Types, ErrorView>(e@),
        },
{
    let mut types: Vec<ColumnType> = Vec::new();
    let mut hidden: Vec<bool> = Vec::new();
    let mut i: usize = 0;
    let ghost all = name_texts(names@);
    let ghost f = name_type(all);
    assert(tys(types@) =~= seq![]);
    while i < names.len()
        invariant
            i <= names.len(),
            all == name_texts(names@),
            f == name_type(all),
            types@.len() == i,
            hidden@.len() == i,
            forall|k: int| 0 <= k < i ==> hidden@[k] == (all[k] == "SharedVariant"@),
            table(f, i as nat) == Ok::<Seq<Ty>, ErrorView>(tys(types@)),
        decreases names.len() - i,
    {
        let name = names[i].as_str();
        assert(all[i as int] == name@);
        match wire_type(name) {
            Ok(t) => {
                proof {
                    lemma_tys_push(types@, t);
                }
                types.push(t);
                hidden.push(is_shared_variant(name));
            },
            Err(e) => {
                proof {
                    lemma_table_err(f, (i + 1) as nat, all.len());
                }
                return Err(e);
            },
        }
        i = i + 1;
    }
    proof {
        assert(all.len() == i);
        assert(hidden@ =~= all.map_values(|s: Seq<char>| s == "SharedVariant"@));
    }
    Ok(TypeList { types, hidden })
}

/// Read `n` UTF-8 strings.
fn read_names(d: &[u8], pos: usize, n: usize) -> (r: Result<(Vec<String>, usize), Error>)
    requires
        pos <= d@.len(),
    ensures
        match r {
            Ok((names, p)) => many(name_reader(d@), pos as int, n as nat) == Ok::<
                (Seq<Seq<char>>, int),
                ErrorView,
            >((name_texts(names@), p as int)) && p <= d@.len() && names@.len() == n,
            Err(e) => many(name_reader(d@), pos as int, n as nat) == Err::<
                (Seq<Seq<char>>, int),
                ErrorView,
            >(e@),
        },
{
    let mut names: Vec<String> = Vec::new();
    let mut p: usize = pos;
    let mut i: usize = 0;
    let ghost read = name_reader(d@);
    assert(name_texts(names@) =~= seq![]);
    while i < n
        invariant
            i <= n,
            names@.len() == i,
            p <= d@.len(),
            read == name_reader(d@),
            many(read, pos as int, i as nat) == Ok::<(Seq<Seq<char>>, int), ErrorView>(
                (name_texts(names@), p as int),
            ),
        decreases n - i,
    {
        match utf8_string_from(d, p) {
            Ok((name, q)) => {
                proof {
                    assert(name_texts(names@.push(name)) =~= name_texts(names@).push(name@));
                }
                names.push(name);
                p = q;
            },
            Err(e) => {
                proof {
                    lemma_many_err(read, pos as int, (i + 1) as nat, n as nat);
                }
                return Err(e);
            },
        }
        i = i + 1;
    }
    Ok((names, p))
}

/// The type list a `Dynamic` column's data phase is read against.
pub struct DynamicHeader {
    names: Vec<String>,
}

impl View for DynamicHeader {
    type V = Seq<Seq<char>>;

    closed spec fn view(&self) -> Seq<Seq<char>> {
        name_texts(self.names@)
    }
}

/// The prefix half of a v1/v2 `Dynamic` column: the type list, then the inner
/// Variant's discriminator mode.
///
/// The server writes all of this as the column's serialisation prefix, so for a
/// nested `Dynamic` it precedes the enclosing column's data rather than sitting
/// where the child does.
///
/// # Errors
///
/// [`Error::BadResponse`] for a type count above the cap or a discriminator
/// mode this reader does not support.
pub fn read_dynamic_v1v2_prefix(w: &Wire, pos: usize, has_max_types: bool) -> (r: Result<
    (DynamicHeader, usize),
    Error,
>)
    requires
        pos <= w@.bytes.len(),
    ensures
        reads(r, dynamic_names_at(w@, pos as int, has_max_types), w@.bytes.len()),
{
    let start: usize = if has_max_types {
        let (_max, p) = var_uint_from(w.data, pos)?;
        p
    } else {
        pos
    };
    let (count, p) = read_capped_count(w.data, start, MAX_WIRE_TYPES, "Dynamic type")?;
    with_cap::<String>(count + 1, w.budget)?;
    let (mut names, q) = read_names(w.data, p, count)?;
    let ghost listed = name_texts(names@);
    names.push("SharedVariant".to_owned());
    assert(name_texts(names@) =~= listed.push("SharedVariant"@));
    let (_mode, end) = read_variant_mode(w.data, q)?;
    Ok((DynamicHeader { names: sort_names(names) }, end))
}

/// The data half of a v1/v2 `Dynamic` column, read against the type list its
/// prefix declared.
fn read_dynamic_body_at(w: &Wire, pos: usize, n: usize, header: &DynamicHeader, depth: usize) -> (r:
    Result<(ColumnData, usize), Error>)
    requires
        pos <= w@.bytes.len(),
        depth <= MAX_READ_DEPTH,
    ensures
        reads_cells(
            r,
            dynamic_body_at(
                nested_reader(w@, (depth + 1) as nat),
                w@,
                pos as int,
                n as nat,
                header@,
            ),
            n as nat,
            w@.bytes.len(),
        ),
    decreases 33 - depth, 3nat,
{
    let list = wire_type_list(&header.names)?;
    let (picked, p) = read_picked(w, pos, n, &list.types, depth)?;
    let out = show_documents(w, &list, &picked, n)?;
    Ok((out, p))
}

/// Read a flattened Dynamic type list, which carries no `SharedVariant` and is
/// indexed in declaration order, so the whole 255-slot range is concrete types.
fn read_flat_wire_types(w: &Wire, pos: usize) -> (r: Result<(Vec<ColumnType>, usize), Error>)
    requires
        pos <= w@.bytes.len(),
    ensures
        match r {
            Ok((types, p)) => flat_types_at(w@, pos as int) == Ok::<(Seq<Ty>, int), ErrorView>(
                (tys(types@), p as int),
            ) && p <= w@.bytes.len() && types@.len() <= MAX_VARIANT_TYPES,
            Err(e) => flat_types_at(w@, pos as int) == Err::<(Seq<Ty>, int), ErrorView>(e@),
        },
{
    let (count, start) = read_capped_count(w.data, pos, MAX_VARIANT_TYPES, "Dynamic type")?;
    let mut types: Vec<ColumnType> = with_cap(count, w.budget)?;
    let mut p: usize = start;
    let mut i: usize = 0;
    let ghost read = type_reader(w@.bytes);
    assert(tys(types@) =~= seq![]);
    while i < count
        invariant
            i <= count,
            count <= MAX_VARIANT_TYPES,
            types@.len() == i,
            p <= w@.bytes.len(),
            read == type_reader(w@.bytes),
            capped_count_at(
                w@.bytes,
                pos as int,
                MAX_VARIANT_TYPES as nat,
                "Dynamic type"@,
            ) == Ok::<(nat, int), ErrorView>((count as nat, start as int)),
            claim::<ColumnType>(count as nat, w@.budget) is Ok,
            many(read, start as int, i as nat) == Ok::<(Seq<Ty>, int), ErrorView>(
                (tys(types@), p as int),
            ),
        decreases count - i,
    {
        let step: Result<(ColumnType, usize), Error> = match utf8_string_from(w.data, p) {
            Ok((name, q)) => match wire_type(name.as_str()) {
                Ok(t) => Ok((t, q)),
                Err(e) => Err(e),
            },
            Err(e) => Err(e),
        };
        match step {
            Ok((t, q)) => {
                proof {
                    lemma_tys_push(types@, t);
                }
                types.push(t);
                p = q;
            },
            Err(e) => {
                proof {
                    lemma_many_err(read, start as int, (i + 1) as nat, count as nat);
                }
                return Err(e);
            },
        }
        i = i + 1;
    }
    Ok((types, p))
}

/// Discriminator width `ClickHouse` picks for `slots` concrete types plus NULL.
///
/// `getSmallestIndexesType(slots + 1)` takes the narrowest unsigned type whose
/// range covers the slot count, so the u8 arm runs to 255 types inclusive.
pub fn index_width(slots: usize) -> (width: usize)
    ensures
        width == disc_width(slots as nat),
        width <= 8,
{
    if slots <= 255 {
        1
    } else if slots <= 65_535 {
        2
    } else if slots as u64 <= 0xffff_ffff {
        4
    } else {
        8
    }
}

/// Read a discriminator per row, wide enough for the types, then the
/// sub-columns.
fn read_flat_picked(w: &Wire, pos: usize, n: usize, types: &Vec<ColumnType>, depth: usize) -> (r:
    Result<(Picked, usize), Error>)
    requires
        pos <= w@.bytes.len(),
        depth <= MAX_READ_DEPTH,
    ensures
        picks(
            r,
            flat_chosen_at(
                nested_reader(w@, (depth + 1) as nat),
                w@,
                pos as int,
                n as nat,
                tys(types@),
            ),
            types@.len(),
            n as nat,
            w@.bytes.len(),
        ),
    decreases 33 - depth, 2nat,
{
    let width: usize = index_width(types.len());
    let mut discs: Vec<usize> = with_cap(n, w.budget)?;
    let mut p: usize = pos;
    let mut i: usize = 0;
    let ghost read = disc_reader(w@.bytes, width as nat);
    assert(end_nats(discs@) =~= seq![]);
    while i < n
        invariant
            i <= n,
            width <= 8,
            width == disc_width(types@.len()),
            discs@.len() == i,
            p <= w@.bytes.len(),
            read == disc_reader(w@.bytes, width as nat),
            claim::<usize>(n as nat, w@.budget) is Ok,
            many(read, pos as int, i as nat) == Ok::<(Seq<nat>, int), ErrorView>(
                (end_nats(discs@), p as int),
            ),
        decreases n - i,
    {
        match index_from(w.data, p, width) {
            Ok((d, q)) => {
                proof {
                    assert(end_nats(discs@.push(d)) =~= end_nats(discs@).push(d as nat));
                }
                discs.push(d);
                p = q;
            },
            Err(e) => {
                proof {
                    lemma_many_err(read, pos as int, (i + 1) as nat, n as nat);
                    assert(tys(types@).len() == types@.len());
                }
                return Err(e);
            },
        }
        i = i + 1;
    }
    assert(tys(types@).len() == types@.len());
    read_shared_out(w, p, discs, types, depth)
}

/// Dynamic FLATTENED column reader. `FLATTENED` is wire value 3.
///
/// No `SharedVariant`; NULL discriminator = totalTypes, and the discriminator
/// width scales with it.
fn read_dynamic_flattened_column(w: &Wire, pos: usize, n: usize, depth: usize) -> (r: Result<
    (ColumnData, usize),
    Error,
>)
    requires
        pos <= w@.bytes.len(),
        depth <= MAX_READ_DEPTH,
    ensures
        reads_cells(
            r,
            dynamic_flat_at(nested_reader(w@, (depth + 1) as nat), w@, pos as int, n as nat),
            n as nat,
            w@.bytes.len(),
        ),
    decreases 33 - depth, 3nat,
{
    let (types, p) = read_flat_wire_types(w, pos)?;
    let (picked, q) = read_flat_picked(w, p, n, &types, depth)?;
    let list = shown_types(types);
    let out = show_documents(w, &list, &picked, n)?;
    Ok((out, q))
}

/// Standalone Dynamic column reader.
///
/// Dispatches based on the wire serialization version prefix:
/// - `1`: deprecated format (maxTypes + totalTypes + sorted types + `SharedVariant` + variantVersion)
/// - `2`: intermediate format (totalTypes + sorted types + `SharedVariant` + variantVersion)
/// - `3`: flat format (totalTypes + types, NULL = totalTypes, no `SharedVariant`)
fn read_dynamic_column(w: &Wire, pos: usize, n: usize, depth: usize) -> (r: Result<
    (ColumnData, usize),
    Error,
>)
    requires
        pos <= w@.bytes.len(),
        depth <= MAX_READ_DEPTH,
    ensures
        reads_cells(
            r,
            dynamic_at(nested_reader(w@, (depth + 1) as nat), w@, pos as int, n as nat),
            n as nat,
            w@.bytes.len(),
        ),
    decreases 33 - depth, 4nat,
{
    let (version, p) = u64_from(w.data, pos)?;
    if version == 1 || version == 2 {
        let (header, q) = read_dynamic_v1v2_prefix(w, p, version == 1)?;
        read_dynamic_body_at(w, q, n, &header, depth)
    } else if version == 3 {
        read_dynamic_flattened_column(w, p, n, depth)
    } else {
        let mut text = "native protocol: unsupported Dynamic serialization version: ".to_owned();
        push_decimal(&mut text, version as u128);
        Err(Error::BadResponse(text))
    }
}

// ---------------------------------------------------------------------------
// JSON object readers
// ---------------------------------------------------------------------------

/// The values of a list of type lists.
pub open spec fn type_lists(lists: Seq<TypeList>) -> Seq<Types> {
    lists.map_values(|l: TypeList| l@)
}

/// The values of a list of picked rows.
pub open spec fn picked_lists(lists: Seq<Picked>) -> Seq<Chosen> {
    lists.map_values(|l: Picked| l@)
}

/// Read the paths that a JSON column declares.
fn read_paths(w: &Wire, pos: usize) -> (r: Result<(Vec<String>, usize), Error>)
    requires
        pos <= w@.bytes.len(),
    ensures
        match r {
            Ok((names, p)) => paths_at(w@, pos as int) == Ok::<(Seq<Seq<char>>, int), ErrorView>(
                (name_texts(names@), p as int),
            ) && p <= w@.bytes.len(),
            Err(e) => paths_at(w@, pos as int) == Err::<(Seq<Seq<char>>, int), ErrorView>(e@),
        },
{
    let (count, p) = read_capped_count(w.data, pos, MAX_JSON_PATHS, "JSON dynamic path")?;
    with_cap::<String>(count, w.budget)?;
    read_names(w.data, p, count)
}

/// Read the type list of one JSON v2 path.
fn read_path_types(w: &Wire, pos: usize, name: &str) -> (r: Result<(TypeList, usize), Error>)
    requires
        pos <= w@.bytes.len(),
    ensures
        match r {
            Ok((list, p)) => path_types_at(w@)(pos as int, name@) == Ok::<
                (Types, int),
                ErrorView,
            >((list@, p as int)) && p <= w@.bytes.len() && list.wf(),
            Err(e) => path_types_at(w@)(pos as int, name@) == Err::<(Types, int), ErrorView>(e@),
        },
{
    let (version, p) = u64_from(w.data, pos)?;
    if version != 1 && version != 2 {
        let mut text = "native protocol: unexpected Dynamic version ".to_owned();
        push_decimal(&mut text, version as u128);
        text.append(" in JSON v2 path \"");
        text.append(name);
        text.append("\"");
        return Err(Error::BadResponse(text));
    }
    let (header, q) = read_dynamic_v1v2_prefix(w, p, version == 1)?;
    let list = wire_type_list(&header.names)?;
    Ok((list, q))
}

/// Read the type list of one flattened JSON path.
fn read_flat_path_types(w: &Wire, pos: usize, name: &str) -> (r: Result<(TypeList, usize), Error>)
    requires
        pos <= w@.bytes.len(),
    ensures
        match r {
            Ok((list, p)) => flat_path_types_at(w@)(pos as int, name@) == Ok::<
                (Types, int),
                ErrorView,
            >((list@, p as int)) && p <= w@.bytes.len() && list.wf(),
            Err(e) => flat_path_types_at(w@)(pos as int, name@) == Err::<
                (Types, int),
                ErrorView,
            >(e@),
        },
{
    // Each path opens with the flattened Dynamic version before its types.
    let (version, p) = u64_from(w.data, pos)?;
    if version != DYNAMIC_FLATTENED {
        let mut text = "native protocol: unexpected Dynamic version ".to_owned();
        push_decimal(&mut text, version as u128);
        text.append(" in a JSON v3 path");
        return Err(Error::BadResponse(text));
    }
    let (types, q) = read_flat_wire_types(w, p)?;
    Ok((shown_types(types), q))
}

/// How the type lists of a JSON column's paths are read.
pub open spec fn path_types_reader(w: WireView, flattened: bool) -> spec_fn(
    int,
    Seq<char>,
) -> Read<Types> {
    if flattened {
        flat_path_types_at(w)
    } else {
        path_types_at(w)
    }
}

/// How the data of a JSON column's paths are read.
pub open spec fn path_data_reader(
    nested: Nested,
    w: WireView,
    n: nat,
    flattened: bool,
) -> spec_fn(int, Types) -> Read<Chosen> {
    if flattened {
        flat_path_data_at(nested, w, n)
    } else {
        path_data_at(nested, w, n)
    }
}

/// Read the type list of every path.
fn read_all_path_types(w: &Wire, pos: usize, names: &Vec<String>, flattened: bool) -> (r: Result<
    (Vec<TypeList>, usize),
    Error,
>)
    requires
        pos <= w@.bytes.len(),
    ensures
        match r {
            Ok((lists, p)) => {
                &&& chain(name_texts(names@), path_types_reader(w@, flattened), pos as int) == Ok::<
                    (Seq<Types>, int),
                    ErrorView,
                >((type_lists(lists@), p as int))
                &&& p <= w@.bytes.len()
                &&& lists@.len() == names@.len()
                &&& forall|i: int| 0 <= i < lists@.len() ==> (#[trigger] lists@[i]).wf()
            },
            Err(e) => chain(name_texts(names@), path_types_reader(w@, flattened), pos as int)
                == Err::<(Seq<Types>, int), ErrorView>(e@),
        },
{
    let mut lists: Vec<TypeList> = Vec::new();
    let mut p: usize = pos;
    let mut i: usize = 0;
    let ghost all = name_texts(names@);
    let ghost read = path_types_reader(w@, flattened);
    assert(type_lists(lists@) =~= seq![]);
    while i < names.len()
        invariant
            i <= names.len(),
            all == name_texts(names@),
            read == path_types_reader(w@, flattened),
            lists@.len() == i,
            p <= w@.bytes.len(),
            forall|i: int| 0 <= i < lists@.len() ==> (#[trigger] lists@[i]).wf(),
            chain(all.take(i as int), read, pos as int) == Ok::<(Seq<Types>, int), ErrorView>(
                (type_lists(lists@), p as int),
            ),
        decreases names.len() - i,
    {
        let name = names[i].as_str();
        proof {
            assert(all.take(i + 1).drop_last() =~= all.take(i as int));
            assert(all.take(i + 1).last() == name@);
        }
        let step = if flattened {
            read_flat_path_types(w, p, name)
        } else {
            read_path_types(w, p, name)
        };
        match step {
            Ok((list, q)) => {
                proof {
                    assert(type_lists(lists@.push(list)) =~= type_lists(lists@).push(list@));
                }
                lists.push(list);
                p = q;
            },
            Err(e) => {
                proof {
                    lemma_chain_err(all, read, pos as int, i + 1);
                }
                return Err(e);
            },
        }
        i = i + 1;
    }
    assert(all.take(i as int) =~= all);
    Ok((lists, p))
}

/// The rows of every path fit its type list.
pub open spec fn fit(lists: Seq<TypeList>, picked: Seq<Picked>, n: nat) -> bool {
    &&& picked.len() == lists.len()
    &&& forall|i: int| 0 <= i < lists.len() ==> (#[trigger] lists[i]).wf()
    &&& forall|i: int|
        0 <= i < lists.len() ==> (#[trigger] picked[i]).wf(lists[i].types@.len(), n)
}

/// Read the data of every path.
fn read_all_path_data(
    w: &Wire,
    pos: usize,
    n: usize,
    lists: &Vec<TypeList>,
    flattened: bool,
    depth: usize,
) -> (r: Result<(Vec<Picked>, usize), Error>)
    requires
        pos <= w@.bytes.len(),
        depth <= MAX_READ_DEPTH,
        forall|i: int| 0 <= i < lists@.len() ==> (#[trigger] lists@[i]).wf(),
    ensures
        ({
            let read = path_data_reader(
                nested_reader(w@, (depth + 1) as nat),
                w@,
                n as nat,
                flattened,
            );
            let s = chain(type_lists(lists@), read, pos as int);
            match r {
                Ok((picked, p)) => {
                    &&& s == Ok::<(Seq<Chosen>, int), ErrorView>(
                        (picked_lists(picked@), p as int),
                    )
                    &&& p <= w@.bytes.len()
                    &&& fit(lists@, picked@, n as nat)
                },
                Err(e) => s == Err::<(Seq<Chosen>, int), ErrorView>(e@),
            }
        }),
    decreases 33 - depth, 3nat,
{
    let mut picked: Vec<Picked> = Vec::new();
    let mut p: usize = pos;
    let mut i: usize = 0;
    let ghost nested = nested_reader(w@, (depth + 1) as nat);
    let ghost read = path_data_reader(nested, w@, n as nat, flattened);
    let ghost all = type_lists(lists@);
    assert(picked_lists(picked@) =~= seq![]);
    while i < lists.len()
        invariant
            i <= lists.len(),
            depth <= MAX_READ_DEPTH,
            all == type_lists(lists@),
            nested == nested_reader(w@, (depth + 1) as nat),
            read == path_data_reader(nested, w@, n as nat, flattened),
            picked@.len() == i,
            p <= w@.bytes.len(),
            forall|k: int| 0 <= k < lists@.len() ==> (#[trigger] lists@[k]).wf(),
            forall|k: int|
                0 <= k < i ==> (#[trigger] picked@[k]).wf(lists@[k].types@.len(), n as nat),
            chain(all.take(i as int), read, pos as int) == Ok::<(Seq<Chosen>, int), ErrorView>(
                (picked_lists(picked@), p as int),
            ),
        decreases lists.len() - i,
    {
        let types = &lists[i].types;
        proof {
            assert(all.take(i + 1).drop_last() =~= all.take(i as int));
            assert(all.take(i + 1).last() == lists@[i as int]@);
        }
        let step = if flattened {
            read_flat_picked(w, p, n, types, depth)
        } else {
            read_picked(w, p, n, types, depth)
        };
        match step {
            Ok((rows, q)) => {
                proof {
                    assert(picked_lists(picked@.push(rows)) =~= picked_lists(picked@).push(rows@));
                }
                picked.push(rows);
                p = q;
            },
            Err(e) => {
                proof {
                    lemma_chain_err(all, read, pos as int, i + 1);
                }
                return Err(e);
            },
        }
        i = i + 1;
    }
    assert(all.take(i as int) =~= all);
    Ok((picked, p))
}

proof fn lemma_members_err(
    w: WireView,
    names: Seq<Seq<char>>,
    types: Seq<Types>,
    chosen: Seq<Chosen>,
    i: int,
    k: nat,
    n: nat,
)
    requires
        k <= n,
        members(w, names, types, chosen, i, k) is Err,
    ensures
        members(w, names, types, chosen, i, n) == members(w, names, types, chosen, i, k),
    decreases n,
{
    if k < n {
        lemma_members_err(w, names, types, chosen, i, k, (n - 1) as nat);
    }
}

/// The object of row `at`.
fn show_object(
    w: &Wire,
    names: &Vec<String>,
    lists: &Vec<TypeList>,
    picked: &Vec<Picked>,
    at: usize,
    n: usize,
) -> (r: Result<Vec<u8>, Error>)
    requires
        fit(lists@, picked@, n as nat),
        names@.len() == lists@.len(),
        at < n,
    ensures
        match r {
            Ok(cell) => object(
                w@,
                name_texts(names@),
                type_lists(lists@),
                picked_lists(picked@),
            )(at as int) == Ok::<Seq<u8>, ErrorView>(cell@),
            Err(e) => object(
                w@,
                name_texts(names@),
                type_lists(lists@),
                picked_lists(picked@),
            )(at as int) == Err::<Seq<u8>, ErrorView>(e@),
        },
{
    let mut json: Vec<u8> = Vec::new();
    json.push(123);
    let mut j: usize = 0;
    let ghost ns = name_texts(names@);
    let ghost ts = type_lists(lists@);
    let ghost cs = picked_lists(picked@);
    let ghost mut s: Seq<u8> = seq![];
    assert(json@ =~= seq![123u8] + s);
    while j < names.len()
        invariant
            j <= names.len(),
            fit(lists@, picked@, n as nat),
            names@.len() == lists@.len(),
            at < n,
            ns == name_texts(names@),
            ts == type_lists(lists@),
            cs == picked_lists(picked@),
            members(w@, ns, ts, cs, at as int, j as nat) == Ok::<Seq<u8>, ErrorView>(s),
            json@ == seq![123u8] + s,
        decreases names.len() - j,
    {
        let list = &lists[j];
        let rows = &picked[j];
        proof {
            assert(ts[j as int] == list@);
            assert(cs[j as int] == rows@);
            assert(ns[j as int] == names@[j as int]@);
            assert(lists@[j as int].wf());
            assert(picked@[j as int].wf(lists@[j as int].types@.len(), n as nat));
        }
        // Absent or NULL: the key is omitted from the object.
        if !absent(list, rows, at) {
            match picked_json(w, list, rows, at) {
                Ok(value) => {
                    if json.len() > 1 {
                        json.push(44);
                    }
                    push_quoted(&mut json, names[j].as_str().as_bytes());
                    json.push(58);
                    push_all(&mut json, value.as_slice());
                    proof {
                        let m = quoted_bytes(vstd::utf8::encode_utf8(ns[j as int])) + seq![58u8]
                            + value@;
                        let next = if s.len() == 0 {
                            m
                        } else {
                            s + seq![44u8] + m
                        };
                        assert(json@ =~= seq![123u8] + next);
                        s = next;
                    }
                },
                Err(e) => {
                    proof {
                        lemma_members_err(w@, ns, ts, cs, at as int, (j + 1) as nat, ns.len());
                    }
                    return Err(e);
                },
            }
        }
        j = j + 1;
    }
    json.push(125);
    assert(json@ =~= seq![123u8] + s + seq![125u8]);
    assert(ns.len() == j);
    Ok(rowbinary_string(json.as_slice()))
}

/// The objects of all rows.
fn show_objects(
    w: &Wire,
    names: &Vec<String>,
    lists: &Vec<TypeList>,
    picked: &Vec<Picked>,
    n: usize,
) -> (r: Result<ColumnData, Error>)
    requires
        fit(lists@, picked@, n as nat),
        names@.len() == lists@.len(),
    ensures
        ({
            let s = objects(
                w@,
                name_texts(names@),
                type_lists(lists@),
                picked_lists(picked@),
                n as nat,
            );
            match r {
                Ok(out) => s == Ok::<Cells, ErrorView>(row_bytes(out@)) && out@.len() == n,
                Err(e) => s == Err::<Cells, ErrorView>(e@),
            }
        }),
{
    let mut out: ColumnData = with_cap(n, w.budget)?;
    let mut i: usize = 0;
    let ghost f = object(w@, name_texts(names@), type_lists(lists@), picked_lists(picked@));
    assert(row_bytes(out@) =~= seq![]);
    while i < n
        invariant
            i <= n,
            fit(lists@, picked@, n as nat),
            names@.len() == lists@.len(),
            out@.len() == i,
            f == object(w@, name_texts(names@), type_lists(lists@), picked_lists(picked@)),
            claim::<Vec<u8>>(n as nat, w@.budget) is Ok,
            table(f, i as nat) == Ok::<Cells, ErrorView>(row_bytes(out@)),
        decreases n - i,
    {
        match show_object(w, names, lists, picked, i, n) {
            Ok(cell) => {
                proof {
                    lemma_row_bytes_push(out@, cell);
                }
                out.push(cell);
            },
            Err(e) => {
                proof {
                    lemma_table_err(f, (i + 1) as nat, n as nat);
                }
                return Err(e);
            },
        }
        i = i + 1;
    }
    Ok(out)
}

/// JSON v2 object column reader, after the u64 version has been consumed.
///
/// ```text
/// varuint   numDynamicPaths
/// String[]  pathNames (sorted alphabetically)
/// per path: u64 dynVersion; [v1 only: varuint maxTypes];
///           varuint numTypes; String[] typeNames; u64 variantVersion
/// per path: u8[n] discriminators (into sorted(typeNames + "SharedVariant"),
///           255 = NULL), then the sub-columns in sorted order
/// n x u64   shared data
/// ```
fn read_json_object_v2_column(w: &Wire, pos: usize, n: usize, depth: usize) -> (r: Result<
    (ColumnData, usize),
    Error,
>)
    requires
        pos <= w@.bytes.len(),
        depth <= MAX_READ_DEPTH,
    ensures
        reads_cells(
            r,
            json_v2_at(nested_reader(w@, (depth + 1) as nat), w@, pos as int, n as nat),
            n as nat,
            w@.bytes.len(),
        ),
    decreases 33 - depth, 4nat,
{
    let (names, p) = read_paths(w, pos)?;
    with_cap::<Vec<(String, ColumnType)>>(names.len(), w.budget)?;
    let (lists, q) = read_all_path_types(w, p, &names, false)?;
    with_cap::<Vec<u8>>(names.len(), w.budget)?;
    with_cap::<Vec<ColumnData>>(names.len(), w.budget)?;
    let (picked, data_end) = read_all_path_data(w, q, n, &lists, false, depth)?;
    // Shared data is Array(Tuple(String, String)) -- the paths that spilled past
    // `max_dynamic_paths` and their values. Reading only the offsets would
    // desynchronise the block the moment a row actually spills.
    let (offsets, o) = read_offsets(w, data_end, n)?;
    let spilled: u64 = total_of(&offsets);
    let text_type = ColumnType::String;
    proof {
        lemma_nested_reader(w@, o as int, Ty::String, spilled, (depth + 1) as nat);
    }
    let (_paths, s) = read_column_at(w, o, &text_type, spilled, depth + 1)?;
    proof {
        lemma_nested_reader(w@, s as int, Ty::String, spilled, (depth + 1) as nat);
    }
    let (_values, end) = read_column_at(w, s, &text_type, spilled, depth + 1)?;
    let out = show_objects(w, &names, &lists, &picked, n)?;
    Ok((out, end))
}

/// JSON FLATTENED object column reader, after the u64 version has been
/// consumed. `FLATTENED` is wire value 3; Object `V3` is 4 and unhandled.
///
/// ```text
/// varuint   numDynamicPaths
/// String[]  pathNames
/// per path: u64 dynVersion; varuint numTypes; String[] typeNames
/// per path: discriminators (width by numTypes + 1), then the sub-columns in
///           declaration order
/// ```
/// There is no shared-data section in the flattened form.
fn read_json_object_flattened_column(w: &Wire, pos: usize, n: usize, depth: usize) -> (r: Result<
    (ColumnData, usize),
    Error,
>)
    requires
        pos <= w@.bytes.len(),
        depth <= MAX_READ_DEPTH,
    ensures
        reads_cells(
            r,
            json_flat_at(nested_reader(w@, (depth + 1) as nat), w@, pos as int, n as nat),
            n as nat,
            w@.bytes.len(),
        ),
    decreases 33 - depth, 4nat,
{
    let (names, p) = read_paths(w, pos)?;
    with_cap::<Vec<ColumnType>>(names.len(), w.budget)?;
    let (lists, q) = read_all_path_types(w, p, &names, true)?;
    with_cap::<Vec<usize>>(names.len(), w.budget)?;
    with_cap::<Vec<ColumnData>>(names.len(), w.budget)?;
    let (picked, end) = read_all_path_data(w, q, n, &lists, true, depth)?;
    let out = show_objects(w, &names, &lists, &picked, n)?;
    Ok((out, end))
}

fn read_json_body_at(w: &Wire, pos: usize, n: usize, version: u64, depth: usize) -> (r: Result<
    (ColumnData, usize),
    Error,
>)
    requires
        pos <= w@.bytes.len(),
        depth <= MAX_READ_DEPTH,
    ensures
        reads_cells(
            r,
            json_body_at(
                nested_reader(w@, (depth + 1) as nat),
                w@,
                pos as int,
                n as nat,
                version,
            ),
            n as nat,
            w@.bytes.len(),
        ),
    decreases 33 - depth, 5nat,
{
    if version == JSON_SERIALIZATION_STRING {
        read_string_column(w, pos, n)
    } else if version == 2 {
        read_json_object_v2_column(w, pos, n, depth)
    } else if version == 3 {
        read_json_object_flattened_column(w, pos, n, depth)
    } else {
        let mut text = "native protocol: unsupported JSON serialization version: ".to_owned();
        push_decimal(&mut text, version as u128);
        Err(Error::BadResponse(text))
    }
}

/// JSON column payload, after the u64 serialization version.
///
/// Not handled: Object `V1 = 0`, which a server sends when
/// `output_format_native_write_json_as_string` is off, and `V3 = 4`. Both
/// surface as a clean error naming the version.
///
/// # Errors
///
/// As [`read_column`], plus [`Error::BadResponse`] for an unknown `version`.
pub fn read_json_body(w: &Wire, pos: usize, n: usize, version: u64) -> (r: Result<
    (ColumnData, usize),
    Error,
>)
    requires
        pos <= w@.bytes.len(),
    ensures
        reads_cells(
            r,
            json_body_at(nested_reader(w@, 1), w@, pos as int, n as nat, version),
            n as nat,
            w@.bytes.len(),
        ),
{
    read_json_body_at(w, pos, n, version, 0)
}

/// The data half of a v1/v2 `Dynamic` column, read against the type list its
/// prefix declared.
///
/// # Errors
///
/// As [`read_column`].
pub fn read_dynamic_v1v2_body(w: &Wire, pos: usize, n: usize, header: &DynamicHeader) -> (r: Result<
    (ColumnData, usize),
    Error,
>)
    requires
        pos <= w@.bytes.len(),
    ensures
        reads_cells(
            r,
            dynamic_body_at(nested_reader(w@, 1), w@, pos as int, n as nat, header@),
            n as nat,
            w@.bytes.len(),
        ),
{
    read_dynamic_body_at(w, pos, n, header, 0)
}

/// Read the data of a column by its type.
fn read_body(w: &Wire, pos: usize, col_type: &ColumnType, n: usize, depth: usize) -> (r: Result<
    (ColumnData, usize),
    Error,
>)
    requires
        pos <= w@.bytes.len(),
        depth <= MAX_READ_DEPTH,
        n as u64 == n,
    ensures
        reads_cells(
            r,
            body_at(
                nested_reader(w@, (depth + 1) as nat),
                w@,
                pos as int,
                col_type@,
                n as u64,
            ),
            n as nat,
            w@.bytes.len(),
        ),
    decreases 33 - depth, 6nat,
{
    proof {
        reveal(body_at);
    }
    if let Some(size) = col_type.fixed_size() {
        return read_fixed_column(w, pos, n, size);
    }
    match col_type {
        ColumnType::Point => read_point_column(w, pos, n),
        ColumnType::String | ColumnType::Json => read_string_column(w, pos, n),
        ColumnType::Nullable(inner) => read_nullable_column(w, pos, n, inner, depth),
        ColumnType::LowCardinality(inner) => read_low_cardinality_column(w, pos, n, inner, depth),
        ColumnType::SimpleAggregateFunction(inner) => {
            proof {
                lemma_nested_reader(w@, pos as int, inner@, n as u64, (depth + 1) as nat);
            }
            read_column_at(w, pos, inner, n as u64, depth + 1)
        },
        ColumnType::Array(inner) => read_array_column(w, pos, n, inner, depth),
        ColumnType::Tuple(fields) => {
            proof {
                lemma_tys(*fields);
            }
            read_tuple_column(w, pos, n, fields, depth)
        },
        ColumnType::Mapping(key_type, val_type) => read_map_column(
            w,
            pos,
            n,
            key_type,
            val_type,
            depth,
        ),
        ColumnType::Variant(types) => {
            proof {
                lemma_tys(*types);
            }
            read_variant_column(w, pos, n, types, depth)
        },
        ColumnType::NewJson => {
            let (version, p) = u64_from(w.data, pos)?;
            read_json_body_at(w, p, n, version, depth)
        },
        _ => read_dynamic_column(w, pos, n, depth),
    }
}

/// Read the data of a column, `depth` levels down.
fn read_column_at(w: &Wire, pos: usize, col_type: &ColumnType, rows: u64, depth: usize) -> (r:
    Result<(ColumnData, usize), Error>)
    requires
        pos <= w@.bytes.len(),
        depth <= 33,
    ensures
        reads_cells(
            r,
            read_at(w@, pos as int, col_type@, rows, depth as nat),
            rows as nat,
            w@.bytes.len(),
        ),
    decreases 33 - depth, 7nat,
{
    proof {
        reveal(nested_reader);
    }
    if depth > MAX_READ_DEPTH {
        return Err(error_too_deep());
    }
    if depth == 0 && rows == 0 {
        let out: ColumnData = Vec::new();
        assert(row_bytes(out@) =~= seq![]);
        return Ok((out, pos));
    }
    if rows > usize::MAX as u64 {
        return Err(error_too_many_rows(rows));
    }
    read_body(w, pos, col_type, rows as usize, depth)
}

/// The data phase of a column alone, for a caller that has already read the
/// prefixes of the whole column.
///
/// # Errors
///
/// As [`read_column`].
pub fn read_column_data(w: &Wire, pos: usize, col_type: &ColumnType, rows: u64) -> (r: Result<
    (ColumnData, usize),
    Error,
>)
    requires
        pos <= w@.bytes.len(),
    ensures
        reads_cells(
            r,
            read_at(w@, pos as int, col_type@, rows, 0),
            rows as nat,
            w@.bytes.len(),
        ),
{
    read_column_at(w, pos, col_type, rows, 0)
}

// ---------------------------------------------------------------------------
// Prefixes
// ---------------------------------------------------------------------------

/// The serialisation prefixes of the whole tree of `t`, in the order the server
/// writes them.
pub open spec fn prefixes_at(w: WireView, pos: int, t: Ty, depth: nat) -> Read<()>
    decreases t,
{
    if depth > MAX_READ_DEPTH {
        Err(too_deep())
    } else {
        match t {
            // The dictionary is part of the data phase, so this does not
            // recurse into the inner type.
            Ty::LowCardinality(_) => match u64_at(w.bytes, pos) {
                Ok((_, p)) => Ok(((), p)),
                Err(e) => Err(e),
            },
            // The discriminator mode, then every element's prefix.
            Ty::Variant(ts) => match variant_mode_at(w.bytes, pos) {
                Ok((_, p)) => field_prefixes_at(w, p, ts, depth + 1),
                Err(e) => Err(e),
            },
            Ty::Nullable(x) => prefixes_at(w, pos, *x, depth + 1),
            Ty::Array(x) => prefixes_at(w, pos, *x, depth + 1),
            Ty::SimpleAggregateFunction(x) => prefixes_at(w, pos, *x, depth + 1),
            Ty::Tuple(ts) => field_prefixes_at(w, pos, ts, depth + 1),
            Ty::Mapping(k, v) => match prefixes_at(w, pos, *k, depth + 1) {
                Ok((_, p)) => prefixes_at(w, p, *v, depth + 1),
                Err(e) => Err(e),
            },
            _ => Ok(((), pos)),
        }
    }
}

/// The serialisation prefixes of `ts`, one type behind the other.
pub open spec fn field_prefixes_at(w: WireView, pos: int, ts: Seq<Ty>, depth: nat) -> Read<()>
    decreases ts,
{
    if ts.len() == 0 {
        Ok(((), pos))
    } else {
        match field_prefixes_at(w, pos, ts.subrange(0, ts.len() - 1), depth) {
            Ok((_, p)) => prefixes_at(w, p, ts[ts.len() - 1], depth),
            Err(e) => Err(e),
        }
    }
}

proof fn lemma_field_prefixes_err(w: WireView, pos: int, ts: Seq<Ty>, depth: nat, k: int)
    requires
        0 <= k <= ts.len(),
        field_prefixes_at(w, pos, ts.subrange(0, k), depth) is Err,
    ensures
        field_prefixes_at(w, pos, ts, depth) == field_prefixes_at(w, pos, ts.subrange(0, k), depth),
    decreases ts.len() - k,
{
    if k < ts.len() {
        assert(ts.subrange(0, k + 1).subrange(0, k) =~= ts.subrange(0, k));
        lemma_field_prefixes_err(w, pos, ts, depth, k + 1);
    } else {
        assert(ts.subrange(0, k) =~= ts);
    }
}

/// `r` is the outcome `s`, within `len` bytes.
pub open spec fn passes(r: Result<usize, Error>, s: Read<()>, len: nat) -> bool {
    match r {
        Ok(p) => s == Ok::<((), int), ErrorView>(((), p as int)) && p <= len,
        Err(e) => s == Err::<((), int), ErrorView>(e@),
    }
}

/// Consume the serialisation prefixes of `types`, one type behind the other.
fn read_field_prefixes(w: &Wire, pos: usize, types: &Vec<ColumnType>, depth: usize) -> (r: Result<
    usize,
    Error,
>)
    requires
        pos <= w@.bytes.len(),
        depth <= 33,
    ensures
        passes(
            r,
            field_prefixes_at(w@, pos as int, tys(types@), depth as nat),
            w@.bytes.len(),
        ),
    decreases types, 1nat,
{
    let mut p: usize = pos;
    let mut i: usize = 0;
    let ghost ts = tys(types@);
    while i < types.len()
        invariant
            i <= types.len(),
            depth <= 33,
            ts == tys(types@),
            p <= w@.bytes.len(),
            field_prefixes_at(w@, pos as int, ts.subrange(0, i as int), depth as nat) == Ok::<
                ((), int),
                ErrorView,
            >(((), p as int)),
        decreases types.len() - i,
    {
        proof {
            assert(ts.subrange(0, i + 1).subrange(0, i as int) =~= ts.subrange(0, i as int));
        }
        match read_prefixes(w, p, &types[i], depth) {
            Ok(q) => {
                p = q;
            },
            Err(e) => {
                proof {
                    lemma_field_prefixes_err(w@, pos as int, ts, depth as nat, i + 1);
                }
                return Err(e);
            },
        }
        i = i + 1;
    }
    assert(ts.subrange(0, i as int) =~= ts);
    Ok(p)
}

/// Consume the serialisation prefixes for `col_type`'s whole tree, in the
/// order the server writes them.
fn read_prefixes(w: &Wire, pos: usize, col_type: &ColumnType, depth: usize) -> (r: Result<
    usize,
    Error,
>)
    requires
        pos <= w@.bytes.len(),
        depth <= 33,
    ensures
        passes(r, prefixes_at(w@, pos as int, col_type@, depth as nat), w@.bytes.len()),
    decreases col_type, 0nat,
{
    if depth > MAX_READ_DEPTH {
        return Err(error_too_deep());
    }
    match col_type {
        ColumnType::LowCardinality(_) => {
            let (_version, p) = u64_from(w.data, pos)?;
            Ok(p)
        },
        ColumnType::Variant(types) => {
            proof {
                lemma_tys(*types);
            }
            let (_mode, p) = read_variant_mode(w.data, pos)?;
            read_field_prefixes(w, p, types, depth + 1)
        },
        ColumnType::Nullable(inner)
        | ColumnType::Array(inner)
        | ColumnType::SimpleAggregateFunction(inner) => read_prefixes(w, pos, inner, depth + 1),
        ColumnType::Tuple(types) => {
            proof {
                lemma_tys(*types);
            }
            read_field_prefixes(w, pos, types, depth + 1)
        },
        ColumnType::Mapping(key, value) => {
            let p = read_prefixes(w, pos, key, depth + 1)?;
            read_prefixes(w, p, value, depth + 1)
        },
        _ => Ok(pos),
    }
}

/// A whole column: the prefixes, where it has rows, then the data.
pub open spec fn column_at(w: WireView, pos: int, t: Ty, rows: u64) -> Read<Cells> {
    if rows > 0 {
        match prefixes_at(w, pos, t, 0) {
            Ok((_, p)) => read_at(w, p, t, rows, 0),
            Err(e) => Err(e),
        }
    } else {
        read_at(w, pos, t, rows, 0)
    }
}

/// Read all `rows` values for `col_type`, prefixes included.
///
/// Returns per-row `RowBinary` bytes ready for concatenation with other column
/// data. `NativeWriter` emits no bytes at all for a top-level column of a
/// zero-row block, the per-type serialization prefix included; a nested
/// sub-column at zero elements still carries its prefix.
///
/// # Errors
///
/// [`Error::BadResponse`] for a malformed header, an offset list that steps
/// backwards, or a wire count above its cap; [`Error::NotEnoughData`] where the
/// bytes end inside the column.
pub fn read_column(w: &Wire, pos: usize, col_type: &ColumnType, rows: u64) -> (r: Result<
    (ColumnData, usize),
    Error,
>)
    requires
        pos <= w@.bytes.len(),
    ensures
        reads_cells(r, column_at(w@, pos as int, col_type@, rows), rows as nat, w@.bytes.len()),
{
    let start: usize = if rows > 0 {
        read_prefixes(w, pos, col_type, 0)?
    } else {
        pos
    };
    read_column_at(w, start, col_type, rows, 0)
}

} // verus!
