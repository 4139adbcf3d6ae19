//! What calls of the codec return, and how one call relates to another.

use vstd::prelude::*;
use vstd::string::*;

use crate::error::{law_what_may_pass, transient_codes, Error, ErrorView};
use crate::ext::{
    exception_body, is_shouty, law_exception_is_read_back, ExceptionView, ServerException,
};
use crate::native::columns::{
    deepest, fixed_size, max_depth, nesting, type_of, ColumnType, Ty, MAX_TYPE_PARSE_DEPTH,
};
use crate::native::consistency::law_block_is_consistent;
use crate::native::decode::{
    block_at, decode_block, read_block_info, MAX_BLOCK_COLUMNS, MAX_BLOCK_ROWS,
};
use crate::native::decode_laws::{
    affords_typed, announces, block_of, holds_columns, law_block_round_trip, wire_types,
};
use crate::native::decoded::{
    law_columns_are_found_by_name, row_count_of, values_of, BlockView, DecodedBlock, DecodedColumn,
    FromColumn,
};
use crate::native::document_laws::{
    flat_form, laid_out, law_dynamic_shows_its_rows, law_flat_dynamic_shows_its_rows,
    law_variant_shows_its_rows, names_types, none_spilled, readable, rows_fit_types, rows_total,
    short_names, shows_rows, spill_form, variant_form, Row,
};
use crate::native::encode::{
    col_bytes, encodable, encode_columns, encoded, pair_texts, prefixes, rb_advance, row_bytes,
    schema_views, ColumnSchema, SchemaView,
};
use crate::native::format_laws::{
    law_block_info_is_passed_over, law_fixed_widths, law_headers_are_taken_in_order,
};
use crate::native::io::{
    claim, law_le_round_trip, law_string_round_trip, law_var_uint_round_trip, le_bytes, le_nat,
    le_number, lemma_var_uint_bounds, pow128, pow256, push_le, push_string, push_var_uint, reads,
    stands_at, string, string_from, twos, var_uint, var_uint_from, Read, VarUintDecoder, Wire,
    WireView, MAX_STRING_SIZE,
};
use crate::native::json::{rowbinary_to_json, rowbinary_to_json_inner, Gap};
use crate::native::laws::{affords, all_plain, law_cells_round_trip, plain};
use crate::native::name_laws::{called, law_wrappers_commute};
use crate::native::names::{ascending, law_names_are_sorted, name_texts, sort_names, sorted};
use crate::native::object_laws::{
    flat_json_form, flat_path, json_fits, json_form, law_flat_objects_show_their_rows,
    law_objects_show_their_rows, path_names, shows_objects, Path,
};
use crate::native::reader::{read_column, ColumnData, MAX_JSON_PATHS, MAX_VARIANT_TYPES};
use crate::native::render_laws::{
    law_signed_numbers_are_spelled_out, law_unsigned_numbers_are_spelled_out, spells,
};
use crate::native::texts::{CellKey, CellTexts};
use crate::native::values::{all_fit, cell, cells, fits, lemma_rb_end, total, Val};
use crate::text::{is_white, mentions, Strip};

verus! {

// ---------------------------------------------------------------------------
// Numbers and strings
// ---------------------------------------------------------------------------

/// A `VarUInt` that was appended reads back as the number, and the reader stops
/// behind it.
pub proof fn law_appended_var_uints_read_back(
    out: &mut Vec<u8>,
    value: u64,
    d: &[u8],
    pos: usize,
    r: Result<(u64, usize), Error>,
)
    requires
        call_ensures(push_var_uint, (out, value), ()),
        d@ == final(out)@,
        pos == old(out)@.len(),
        call_ensures(var_uint_from, (d, pos), r),
    ensures
        r matches Ok((n, end)) && n == value && end == d@.len(),
        d@.len() <= pos + 10,
        d@.take(pos as int) == old(out)@,
{
    let form = var_uint(value as nat);
    assert(d@ =~= old(out)@ + form);
    assert(d@.subrange(pos as int, pos + form.len()) =~= form);
    law_var_uint_round_trip(d@, pos as int, value);
    lemma_var_uint_bounds(value);
    assert(d@.take(pos as int) =~= old(out)@);
}

/// A string that was appended reads back as its bytes.
pub proof fn law_appended_strings_read_back(
    out: &mut Vec<u8>,
    value: &[u8],
    d: &[u8],
    pos: usize,
    r: Result<(Vec<u8>, usize), Error>,
)
    requires
        value@.len() <= MAX_STRING_SIZE,
        call_ensures(push_string, (out, value), ()),
        d@ == final(out)@,
        pos == old(out)@.len(),
        call_ensures(string_from, (d, pos), r),
    ensures
        r matches Ok((s, end)) && s@ == value@ && end == d@.len(),
        d@.take(pos as int) == old(out)@,
{
    let form = string(value@);
    assert(d@ =~= old(out)@ + form);
    assert(d@.subrange(pos as int, pos + form.len()) =~= form);
    law_string_round_trip(d@, pos as int, value@);
    assert(d@.take(pos as int) =~= old(out)@);
}

/// A little-endian number that was appended reads back.
pub proof fn law_appended_numbers_read_back(
    out: &mut Vec<u8>,
    n: u128,
    width: usize,
    d: &[u8],
    pos: usize,
    r: u128,
)
    requires
        width <= 16,
        n < pow256(width as nat),
        call_ensures(push_le, (out, n, width), ()),
        d@ == final(out)@,
        pos == old(out)@.len(),
        pos + width <= d@.len(),
        call_ensures(le_number, (d, pos, width), r),
    ensures
        r == n,
        d@.len() == pos + width,
{
    law_le_round_trip(n as nat, width as nat);
    let form = le_bytes(n as nat, width as nat);
    assert(d@.subrange(pos as int, pos + width) =~= form);
}

// ---------------------------------------------------------------------------
// Types
// ---------------------------------------------------------------------------

/// Headers are taken in order, each with its own name, text and type.
pub proof fn law_headers_become_columns(
    headers: &[(String, String)],
    r: Result<Vec<ColumnSchema>, Error>,
)
    requires
        call_ensures(ColumnSchema::from_headers, (headers,), r),
    ensures
        match r {
            Ok(columns) => {
                &&& columns@.len() == headers@.len()
                &&& forall|i: int|
                    0 <= i < headers@.len() ==> {
                        let c = #[trigger] schema_views(columns@)[i];
                        &&& c.name == headers@[i].0@
                        &&& c.type_text == headers@[i].1@
                        &&& type_of(headers@[i].1@) == Some(c.ty)
                    }
            },
            Err(_) => exists|i: int|
                0 <= i < headers@.len() && match type_of((#[trigger] headers@[i]).1@) {
                    Some(t) => !encodable(t),
                    None => true,
                },
        },
{
    let texts = pair_texts(headers@);
    law_headers_are_taken_in_order(texts);
    match r {
        Ok(columns) => {
            assert(schema_views(columns@).len() == columns@.len());
            assert forall|i: int| 0 <= i < headers@.len() implies {
                let c = #[trigger] schema_views(columns@)[i];
                &&& c.name == headers@[i].0@
                &&& c.type_text == headers@[i].1@
                &&& type_of(headers@[i].1@) == Some(c.ty)
            } by {
                assert(texts[i] == (headers@[i].0@, headers@[i].1@));
            }
        },
        Err(_) => {
            let i = choose|i: int|
                0 <= i < texts.len() && match type_of((#[trigger] texts[i]).1) {
                    Some(t) => !encodable(t),
                    None => true,
                };
            assert(texts[i].1 == headers@[i].1@);
        },
    }
}

/// Names come out sorted, and every one as often as it went in.
pub proof fn law_sorted_names_are_the_names(names: Vec<String>, out: Vec<String>)
    requires
        call_ensures(sort_names, (names,), out),
    ensures
        ascending(name_texts(out@)),
        name_texts(out@).to_multiset() == name_texts(
            names@,
        ).to_multiset(),
{
    law_names_are_sorted(name_texts(names@));
}

// ---------------------------------------------------------------------------
// Blocks
// ---------------------------------------------------------------------------

/// [`block_at`], as a whole.
#[verifier::opaque]
pub open spec fn block_outcome(
    w: WireView,
    columns: u64,
    rows: u64,
    revision: u64,
) -> Read<BlockView> {
    block_at(w, 0, columns, rows, revision)
}

/// [`encoded`], as a whole.
#[verifier::opaque]
pub open spec fn encoded_as(
    rows: Seq<Seq<u8>>,
    columns: Seq<SchemaView>,
    revision: u64,
    out: Seq<u8>,
) -> bool {
    encoded(rows, columns, revision) == Ok::<Seq<u8>, ErrorView>(out)
}

proof fn lemma_block_call(
    w: &Wire,
    columns: u64,
    rows: u64,
    revision: u64,
    r: Result<(DecodedBlock, usize), Error>,
)
    requires
        call_ensures(decode_block, (w, 0usize, columns, rows, revision), r),
    ensures
        reads(r, block_outcome(w@, columns, rows, revision), w@.bytes.len()),
{
    reveal(block_outcome);
}

proof fn lemma_encode_call(
    rows: &[Vec<u8>],
    columns: &[ColumnSchema],
    revision: u64,
    out: Vec<u8>,
)
    requires
        call_ensures(encode_columns, (rows, columns, revision), Ok(out)),
    ensures
        encoded_as(row_bytes(rows@), schema_views(columns@), revision, out@),
{
    reveal(encoded_as);
}

proof fn lemma_block_outcome(
    w: WireView,
    rows: Seq<Val>,
    columns: Seq<SchemaView>,
    revision: u64,
    m: nat,
    out: Seq<u8>,
)
    requires
        0 < rows.len() <= MAX_BLOCK_ROWS,
        0 < columns.len() <= MAX_BLOCK_COLUMNS,
        all_fit(rows, Ty::Tuple(wire_types(columns))),
        forall|k: int| 0 <= k < columns.len() ==> announces(#[trigger] columns[k]),
        encoded_as(cells(rows), columns, revision, out),
        stands_at(w.bytes, 0, out),
        w.bytes.len() <= usize::MAX,
        holds_columns(columns, total(rows), m),
        m <= usize::MAX,
        affords_typed(w, m),
        claim::<(String, String)>(columns.len(), w.budget) is Ok,
    ensures
        block_outcome(w, columns.len() as u64, rows.len() as u64, revision) == Ok::<
            (BlockView, int),
            ErrorView,
        >((block_of(rows, columns), out.len() as int)),
{
    reveal(encoded_as);
    law_block_round_trip(w, 0, rows, columns, revision, m, out);
    reveal(block_outcome);
}

/// What was encoded decodes to the values that were encoded: one typed column
/// for every column of the schema, in order, under the names and types that
/// were declared, and all of the bytes are consumed.
pub proof fn law_encoded_blocks_decode(
    rows: &[Vec<u8>],
    columns: &[ColumnSchema],
    revision: u64,
    vals: Seq<Val>,
    out: Vec<u8>,
    w: &Wire,
    m: nat,
    r: Result<(DecodedBlock, usize), Error>,
)
    requires
        row_bytes(rows@) == cells(vals),
        0 < vals.len() <= MAX_BLOCK_ROWS,
        0 < columns@.len() <= MAX_BLOCK_COLUMNS,
        all_fit(vals, Ty::Tuple(wire_types(schema_views(columns@)))),
        forall|k: int|
            0 <= k < columns@.len() ==> announces(#[trigger] schema_views(columns@)[k]),
        call_ensures(encode_columns, (rows, columns, revision), Ok(out)),
        w@.bytes == out@,
        w@.bytes.len() <= usize::MAX,
        holds_columns(schema_views(columns@), total(vals), m),
        m <= usize::MAX,
        affords_typed(w@, m),
        claim::<(String, String)>(columns@.len(), w@.budget) is Ok,
        call_ensures(
            decode_block,
            (w, 0usize, columns@.len() as u64, vals.len() as u64, revision),
            r,
        ),
    ensures
        r matches Ok((block, end)) && block@ == block_of(vals, schema_views(columns@)) && end
            == out@.len(),
{
    let schema = schema_views(columns@);
    assert(schema.len() == columns@.len());
    assert(stands_at(w@.bytes, 0, out@)) by {
        assert(out@.subrange(0, out@.len() as int) =~= out@);
    }
    lemma_encode_call(rows, columns, revision, out);
    lemma_block_outcome(w@, vals, schema, revision, m, out@);
    lemma_block_call(w, columns@.len() as u64, vals.len() as u64, revision, r);
}

/// A decoded block has as many columns and rows as were announced, and every
/// column that reports its rows has exactly as many.
pub proof fn law_decoded_blocks_are_consistent(
    w: &Wire,
    pos: usize,
    num_columns: u64,
    num_rows: u64,
    revision: u64,
    block: DecodedBlock,
    end: usize,
    i: int,
)
    requires
        call_ensures(
            decode_block,
            (w, pos, num_columns, num_rows, revision),
            Ok((block, end)),
        ),
        0 <= i < num_columns,
    ensures
        block@.columns.len() == num_columns,
        block@.schema.len() == num_columns,
        block@.num_rows == num_rows,
        block@.columns[i] is Unsupported || row_count_of(block@.columns[i]) == num_rows,
        end <= w@.bytes.len(),
{
    law_block_is_consistent(w@, pos as int, num_columns, num_rows, revision);
}

/// The block info is passed over, whatever its fields hold.
pub proof fn law_block_info_is_read(
    d: &[u8],
    pos: usize,
    overflows: u8,
    bucket: Seq<u8>,
    r: Result<usize, Error>,
)
    requires
        bucket.len() == 4,
        stands_at(d@, pos as int, seq![1u8, overflows, 2u8] + bucket + seq![0u8]),
        call_ensures(read_block_info, (d, pos), r),
    ensures
        r matches Ok(end) && end == pos + 8,
{
    law_block_info_is_passed_over(d@, pos as int, overflows, bucket);
}

/// Stepping over a value in its `RowBinary` form ends right behind it.
pub proof fn law_values_are_stepped_over(
    data: &[u8],
    pos: usize,
    col_type: &ColumnType,
    v: Val,
    r: Result<usize, Error>,
)
    requires
        fits(v, col_type@),
        stands_at(data@, pos as int, cell(v)),
        call_ensures(rb_advance, (data, pos, col_type), r),
    ensures
        r matches Ok(end) && end == pos + cell(v).len(),
{
    lemma_rb_end(data@, pos as int, v, col_type@);
}

// ---------------------------------------------------------------------------
// Columns by name
// ---------------------------------------------------------------------------

/// A column is found by its name: the first that the block declares under it.
/// A block without rows hands out no column.
pub proof fn law_blocks_are_read_by_name(
    block: &DecodedBlock,
    name: &str,
    r: Option<&DecodedColumn>,
)
    requires
        call_ensures(DecodedBlock::column, (block, name), r),
    ensures
        r matches Some(c) ==> block@.num_rows > 0 && exists|i: int|
            0 <= i < block@.columns.len() && i < block@.schema.len() && #[trigger] block@.columns[i]
                == c@ && block@.schema[i].0 == name@ && forall|j: int|
                0 <= j < i ==> (#[trigger] block@.schema[j]).0 != name@,
        r is None ==> block@.num_rows == 0 || block@.columns.len() < block@.schema.len()
            || forall|j: int|
            0 <= j < block@.schema.len() ==> (#[trigger] block@.schema[j]).0 != name@,
{
    law_columns_are_found_by_name(block@.schema, name@);
}

/// A typed read of a column by its name is the typed read of the column of that
/// name, and an error where the block declares none.
pub proof fn law_typed_reads_go_by_name<T: FromColumn>(
    block: &DecodedBlock,
    name: &str,
    i: int,
    declared: &str,
    column: &DecodedColumn,
    direct: Result<Vec<T>, Error>,
    r: Result<Vec<T>, Error>,
)
    requires
        call_ensures(DecodedBlock::column_as::<T>, (block, name), r),
        block@.columns.len() == block@.schema.len() > 0,
        0 <= i < block@.schema.len(),
        block@.schema[i] == (name@, declared@),
        forall|j: int| 0 <= j < i ==> (#[trigger] block@.schema[j]).0 != name@,
        column@ == block@.columns[i],
        call_ensures(T::from_column, (column, name, declared), direct),
    ensures
        match (direct, r) {
            (Ok(a), Ok(b)) => values_of(a@) == values_of(b@),
            (Err(a), Err(b)) => a@ == b@,
            _ => false,
        },
{
    law_columns_are_found_by_name(block@.schema, name@);
}

/// A name that the block does not declare is an error.
pub proof fn law_undeclared_names_are_refused<T: FromColumn>(
    block: &DecodedBlock,
    name: &str,
    r: Result<Vec<T>, Error>,
)
    requires
        call_ensures(DecodedBlock::column_as::<T>, (block, name), r),
        block@.schema.len() > 0,
        forall|j: int| 0 <= j < block@.schema.len() ==> (#[trigger] block@.schema[j]).0 != name@,
    ensures
        r matches Err(e) && e@ is SchemaMismatch,
{
    law_columns_are_found_by_name(block@.schema, name@);
}

// ---------------------------------------------------------------------------
// Documents
// ---------------------------------------------------------------------------

/// A `Variant` column reads as the JSON text of the value of every row, in row
/// order.
pub proof fn law_variants_read_as_their_rows(
    w: &Wire,
    pos: usize,
    col_type: &ColumnType,
    rows: Seq<Row>,
    ts: Seq<Ty>,
    m: nat,
    b: Seq<u8>,
    data: ColumnData,
    end: usize,
)
    requires
        col_type@ == Ty::Variant(ts),
        0 < rows.len() <= usize::MAX,
        ts.len() <= MAX_VARIANT_TYPES,
        rows_fit_types(rows, ts),
        all_plain(ts),
        deepest(ts) <= 31,
        laid_out(rows, ts) == Ok::<Seq<u8>, ErrorView>(b),
        stands_at(w@.bytes, pos as int, variant_form(rows, ts, b)),
        rows_total(rows) + deepest(ts) <= m <= usize::MAX,
        affords(w@, m),
        claim::<ColumnData>(ts.len(), w@.budget) is Ok,
        claim::<Vec<u8>>(rows.len(), w@.budget) is Ok,
        call_ensures(read_column, (w, pos, col_type, rows.len() as u64), Ok((data, end))),
    ensures
        shows_rows(
            Ok((row_bytes(data@), end as int)),
            rows,
            ts,
            w@,
            pos + variant_form(rows, ts, b).len(),
        ),
{
    law_variant_shows_its_rows(w@, pos as int, rows, ts, m, b);
}

/// A column that was written reads back as the cells of its values.
pub proof fn law_columns_read_as_their_cells(
    w: &Wire,
    pos: usize,
    col_type: &ColumnType,
    vals: Seq<Val>,
    b: Seq<u8>,
    r: Result<(ColumnData, usize), Error>,
)
    requires
        plain(col_type@),
        nesting(col_type@) <= 32,
        vals.len() > 0,
        all_fit(vals, col_type@),
        col_bytes(cells(vals), col_type@) == Ok::<Seq<u8>, ErrorView>(b),
        stands_at(w@.bytes, pos as int, prefixes(col_type@) + b),
        total(vals) + nesting(col_type@) <= usize::MAX,
        affords(w@, total(vals) + nesting(col_type@)),
        call_ensures(read_column, (w, pos, col_type, vals.len() as u64), r),
    ensures
        r matches Ok((data, end)) && row_bytes(data@) == cells(vals) && end == pos + prefixes(
            col_type@,
        ).len() + b.len(),
{
    law_cells_round_trip(w@, pos as int, vals, col_type@, b);
}

/// A flattened `Dynamic` column reads as the JSON text of the value of every
/// row, in row order.
pub proof fn law_dynamics_read_as_their_rows(
    w: &Wire,
    pos: usize,
    col_type: &ColumnType,
    rows: Seq<Row>,
    names: Seq<Seq<char>>,
    ts: Seq<Ty>,
    m: nat,
    b: Seq<u8>,
    data: ColumnData,
    end: usize,
)
    requires
        col_type@ is Dynamic,
        rows.len() > 0,
        readable(w@, rows, ts, m),
        names_types(names, ts),
        short_names(names),
        names.len() <= MAX_VARIANT_TYPES,
        claim::<ColumnType>(names.len(), w@.budget) is Ok,
        laid_out(rows, ts) == Ok::<Seq<u8>, ErrorView>(b),
        stands_at(w@.bytes, pos as int, flat_form(rows, names, b)),
        call_ensures(read_column, (w, pos, col_type, rows.len() as u64), Ok((data, end))),
    ensures
        shows_rows(
            Ok((row_bytes(data@), end as int)),
            rows,
            ts,
            w@,
            pos + flat_form(rows, names, b).len(),
        ),
{
    law_flat_dynamic_shows_its_rows(w@, pos as int, rows, names, ts, m, b);
}

/// A `Dynamic` column with a spill reads as the JSON text of the value of every
/// row, in row order.
pub proof fn law_spilled_dynamics_read_as_their_rows(
    w: &Wire,
    pos: usize,
    col_type: &ColumnType,
    rows: Seq<Row>,
    names: Seq<Seq<char>>,
    limit: Option<u64>,
    ts: Seq<Ty>,
    m: nat,
    b: Seq<u8>,
    data: ColumnData,
    end: usize,
)
    requires
        col_type@ is Dynamic,
        rows.len() > 0,
        readable(w@, rows, ts, m),
        names_types(sorted(names.push("SharedVariant"@)), ts),
        none_spilled(rows, sorted(names.push("SharedVariant"@))),
        short_names(names),
        names.len() <= 254,
        claim::<String>(names.len() + 1, w@.budget) is Ok,
        laid_out(rows, ts) == Ok::<Seq<u8>, ErrorView>(b),
        stands_at(w@.bytes, pos as int, spill_form(rows, names, limit, b)),
        call_ensures(read_column, (w, pos, col_type, rows.len() as u64), Ok((data, end))),
    ensures
        shows_rows(
            Ok((row_bytes(data@), end as int)),
            rows,
            ts,
            w@,
            pos + spill_form(rows, names, limit, b).len(),
        ),
{
    law_dynamic_shows_its_rows(w@, pos as int, rows, names, limit, ts, m, b);
}

/// A flattened JSON column reads as the object of every row, in row order.
pub proof fn law_flat_objects_read_as_their_rows(
    w: &Wire,
    pos: usize,
    col_type: &ColumnType,
    paths: Seq<Path>,
    n: nat,
    m: nat,
    data: ColumnData,
    end: usize,
)
    requires
        col_type@ is NewJson,
        0 < n <= usize::MAX,
        paths.len() <= MAX_JSON_PATHS,
        short_names(path_names(paths)),
        forall|j: int| 0 <= j < paths.len() ==> flat_path(#[trigger] paths[j], n, m, w@),
        stands_at(w@.bytes, pos as int, flat_json_form(paths)),
        claim::<Vec<u8>>(n, w@.budget) is Ok,
        claim::<String>(paths.len(), w@.budget) is Ok,
        claim::<Vec<ColumnType>>(paths.len(), w@.budget) is Ok,
        claim::<Vec<usize>>(paths.len(), w@.budget) is Ok,
        claim::<Vec<ColumnData>>(paths.len(), w@.budget) is Ok,
        call_ensures(read_column, (w, pos, col_type, n as u64), Ok((data, end))),
    ensures
        shows_objects(
            Ok((row_bytes(data@), end as int)),
            paths,
            n,
            w@,
            pos + flat_json_form(paths).len(),
        ),
{
    law_flat_objects_show_their_rows(w@, pos as int, paths, n, m);
}

/// A JSON column with shared data reads as the object of every row, in row
/// order.
pub proof fn law_objects_read_as_their_rows(
    w: &Wire,
    pos: usize,
    col_type: &ColumnType,
    paths: Seq<Path>,
    keys: Seq<Seq<Val>>,
    values: Seq<Val>,
    n: nat,
    m: nat,
    data: ColumnData,
    end: usize,
)
    requires
        col_type@ is NewJson,
        0 < n <= usize::MAX,
        json_fits(w@, paths, keys, values, n, m),
        stands_at(w@.bytes, pos as int, json_form(paths, keys, values)),
        call_ensures(read_column, (w, pos, col_type, n as u64), Ok((data, end))),
    ensures
        shows_objects(
            Ok((row_bytes(data@), end as int)),
            paths,
            n,
            w@,
            pos + json_form(paths, keys, values).len(),
        ),
{
    law_objects_show_their_rows(w@, pos as int, paths, keys, values, n, m);
}

/// A cell that can be read is shown as its text, one that is cut short as
/// `null`, and one that needs the text of a number asks for it.
pub proof fn law_cells_are_shown_or_null(
    bytes: &[u8],
    col_type: &ColumnType,
    texts: &CellTexts,
    inner: Result<(Vec<u8>, usize), Gap>,
    r: Result<Vec<u8>, Error>,
)
    requires
        call_ensures(rowbinary_to_json_inner, (bytes, col_type, texts), inner),
        call_ensures(rowbinary_to_json, (bytes, col_type, texts), r),
    ensures
        match inner {
            Ok((text, _)) => r matches Ok(s) && s@ == text@,
            Err(Gap::Short) => r matches Ok(s) && s@ == seq![110u8, 117u8, 108u8, 108u8],
            Err(Gap::Text(key)) => r matches Err(e) && e@ == ErrorView::TextNeeded(key),
        },
{
}

/// A number is shown in decimal as the number that its bytes are.
pub proof fn law_numbers_are_shown_in_decimal(
    bytes: &[u8],
    col_type: &ColumnType,
    texts: &CellTexts,
    width: nat,
    r: Result<Vec<u8>, Error>,
)
    requires
        fixed_size(col_type@) == Some(width as usize),
        width <= 16,
        width <= bytes@.len(),
        call_ensures(rowbinary_to_json, (bytes, col_type, texts), r),
    ensures
        ({
            let t = col_type@;
            t is UInt8 || t is UInt16 || t is UInt32 || t is UInt64 || t is UInt128 || t is Date
                || t is DateTime || t is Time
        }) ==> (r matches Ok(s) && spells(s@, 10, le_nat(bytes@.subrange(0, width as int)))),
        ({
            let t = col_type@;
            t is Int8 || t is Int16 || t is Int32 || t is Int64 || t is Int128 || t is Enum8
                || t is Enum16 || t is Decimal32 || t is Decimal64 || t is Decimal128 || t is Date32
                || t is DateTime64 || t is Time64
        }) ==> (r matches Ok(s) && {
            let n = twos(le_nat(bytes@.subrange(0, width as int)), width);
            if n < 0 {
                s@[0] == 45 && spells(s@.skip(1), 10, (-n) as nat)
            } else {
                spells(s@, 10, n as nat)
            }
        }),
{
    let t = col_type@;
    if t is UInt8 || t is UInt16 || t is UInt32 || t is UInt64 || t is UInt128 || t is Date
        || t is DateTime || t is Time {
        law_unsigned_numbers_are_spelled_out(bytes@, 0, t, width, texts@);
    } else if t is Int8 || t is Int16 || t is Int32 || t is Int64 || t is Int128 || t is Enum8
        || t is Enum16 || t is Decimal32 || t is Decimal64 || t is Decimal128 || t is Date32
        || t is DateTime64 || t is Time64 {
        law_signed_numbers_are_spelled_out(bytes@, 0, t, width, texts@);
    }
}

/// A text that was supplied is found under its number, and what is found under
/// any other is what was found before.
pub proof fn law_supplied_texts_are_found(
    texts: &mut CellTexts,
    after: CellTexts,
    key: CellKey,
    text: Vec<u8>,
    other: CellKey,
    found: Option<Vec<u8>>,
    elsewhere: Option<Vec<u8>>,
    before: Option<Vec<u8>>,
)
    requires
        call_ensures(CellTexts::supply, (texts, key, text), ()),
        after@ == final(texts)@,
        other != key,
        call_ensures(CellTexts::get, (&after, key), found),
        call_ensures(CellTexts::get, (&after, other), elsewhere),
        call_ensures(CellTexts::get, (&*old(texts), other), before),
    ensures
        found matches Some(t) && t@ == text@,
        elsewhere is Some <==> before is Some,
        elsewhere matches Some(x) ==> before matches Some(y) && x@ == y@,
{
    assert(after@.drop_last() =~= old(texts)@);
    assert(after@.last() == (key, text@));
}

// ---------------------------------------------------------------------------
// Errors
// ---------------------------------------------------------------------------

/// An exception is read back from the body that reports it, and only from a bad
/// response.
pub proof fn law_exceptions_are_read_from_bodies(
    error: &Error,
    code: i32,
    message: Seq<char>,
    name: Seq<char>,
    version: Seq<char>,
    r: Option<ServerException>,
)
    requires
        call_ensures(ServerException::parse, (error,), r),
        code >= 0,
        message.len() > 0,
        !is_white(message[0]),
        !is_white(message.last()),
        !Strip::AnyOf(':', ' ', '.', ',').strips(message.last()),
        !mentions(message, "Stack trace:"@),
        name.len() > 0,
        is_shouty(name),
        !mentions(version, "(version "@),
    ensures
        !(error@ is BadResponse) ==> r is None,
        error@ == ErrorView::BadResponse(exception_body(code, message, name, version)) ==> (
        r matches Some(x) && x@ == (ExceptionView {
            code,
            name: Some(name),
            message,
            stack_trace: None,
        })),
{
    law_exception_is_read_back(code, message, name, version);
}

/// An exception may pass exactly where its code is a transient one, as an
/// exception, as an error and as a bare code alike.
pub proof fn law_transient_errors_are_told_by_their_code(
    error: &Error,
    exception: &ServerException,
    code: i32,
    a: bool,
    b: bool,
    c: bool,
)
    requires
        error@ matches ErrorView::ServerException { code: x, .. } && x == code,
        exception@.code == code,
        call_ensures(Error::is_retriable, (error,), a),
        call_ensures(ServerException::is_retriable, (exception,), b),
        call_ensures(Error::is_retriable_code, (code,), c),
    ensures
        a == b,
        b == c,
        a <==> transient_codes().contains(code as int),
{
    law_what_may_pass(error@);
}

/// A failure of the transport may pass; any other that no server reported does
/// not.
pub proof fn law_transport_failures_may_pass(error: &Error, r: bool)
    requires
        call_ensures(Error::is_retriable, (error,), r),
        !(error@ is ServerException),
    ensures
        r <==> (error@ is Network || error@ is TimedOut || error@ is Transient
            || error@ is Connect),
{
    law_what_may_pass(error@);
}

// ---------------------------------------------------------------------------
// Octet by octet
// ---------------------------------------------------------------------------

/// A number of one octet is that octet, and one of two the first without its
/// mark and the second, which counts 128 times as much.
pub proof fn law_octets_make_a_number(
    one: &mut VarUintDecoder,
    two: &mut VarUintDecoder,
    next: &mut VarUintDecoder,
    fresh: VarUintDecoder,
    a: u8,
    b: u8,
    first: Result<Option<u64>, Error>,
    more: Result<Option<u64>, Error>,
    second: Result<Option<u64>, Error>,
)
    requires
        call_ensures(VarUintDecoder::new, (), fresh),
        *old(one) == fresh,
        *old(two) == fresh,
        a < 128,
        b >= 128,
        call_ensures(VarUintDecoder::push, (one, a), first),
        call_ensures(VarUintDecoder::push, (two, b), more),
        *old(next) == *final(two),
        call_ensures(VarUintDecoder::push, (next, a), second),
    ensures
        first matches Ok(Some(n)) && n == a,
        more matches Ok(None),
        second matches Ok(Some(n)) && n == (b - 128) + 128 * a,
{
    reveal_with_fuel(pow128, 3);
    assert(pow128(0) == 1);
    assert(pow128(1) == 128);
    assert(fresh.total() == 0 && fresh.index() == 0);
    assert((b - 128) * pow128(0) == b - 128);
    assert(final(two).index() == 1);
    assert(final(two).total() == b - 128);
    assert(old(next).total() == b - 128 && old(next).index() == 1);
    assert(a * pow128(1) == 128 * a);
}

// ---------------------------------------------------------------------------
// Type names
// ---------------------------------------------------------------------------

/// The name of an array parses to the array of what the name within parses to,
/// where that nests within the cap; and so does that of a nullable type.
pub proof fn law_wrapped_names_parse(
    inner: &str,
    array: &str,
    nullable: &str,
    x: Option<ColumnType>,
    a: Option<ColumnType>,
    n: Option<ColumnType>,
)
    requires
        array@ == called("Array"@, inner@),
        nullable@ == called("Nullable"@, inner@),
        max_depth(array@) <= MAX_TYPE_PARSE_DEPTH,
        max_depth(nullable@) <= MAX_TYPE_PARSE_DEPTH,
        call_ensures(ColumnType::parse, (inner,), x),
        call_ensures(ColumnType::parse, (array,), a),
        call_ensures(ColumnType::parse, (nullable,), n),
    ensures
        x is None ==> a is None && n is None,
        x matches Some(t) ==> 1 + nesting(t@) <= MAX_TYPE_PARSE_DEPTH ==> (a matches Some(y) && y@
            == Ty::Array(Box::new(t@))) && (n matches Some(z) && z@ == Ty::Nullable(
            Box::new(t@),
        )),
{
    law_wrappers_commute(inner@);
}

/// Values have the width of their type.
pub proof fn law_types_have_their_width(t: &ColumnType, r: Option<usize>)
    requires
        call_ensures(ColumnType::fixed_size, (t,), r),
    ensures
        t@ is UInt8 || t@ is Int8 || t@ is Enum8 ==> r == Some(1usize),
        t@ is UInt16 || t@ is Int16 || t@ is Enum16 || t@ is Date || t@ is BFloat16 ==> r == Some(
            2usize,
        ),
        t@ is UInt32 || t@ is Int32 || t@ is Float32 || t@ is DateTime || t@ is Date32
            || t@ is Decimal32 || t@ is IPv4 || t@ is Time ==> r == Some(4usize),
        t@ is UInt64 || t@ is Int64 || t@ is Float64 || t@ is DateTime64 || t@ is Decimal64
            || t@ is Time64 ==> r == Some(8usize),
        t@ is UInt128 || t@ is Int128 || t@ is Decimal128 || t@ is Uuid || t@ is IPv6 ==> r == Some(
            16usize,
        ),
        t@ is UInt256 || t@ is Int256 || t@ is Decimal256 ==> r == Some(32usize),
        t@ matches Ty::FixedString(n) ==> r == Some(n),
        t@ is String || t@ is Array || t@ is Mapping || t@ is Tuple || t@ is Nullable ==> r is None,
{
    law_fixed_widths(t@);
}

} // verus!
