//! The decoder inverts the encoder on rows as they are handed in: every
//! canonical `RowBinary` row is found again in the typed columns.

use vstd::prelude::*;

use crate::error::ErrorView;
use crate::native::canonical::{
    all_solid, canonical_fields, lemma_fields, lemma_total_bound, solid,
};
use crate::native::columns::{deepest, law_parse_depth, nesting, type_of, Ty};
use crate::native::decode::{block_at, MAX_BLOCK_COLUMNS, MAX_BLOCK_ROWS};
use crate::native::decode_laws::{
    affords_typed, announces, arity, block_of, field_arity, field_cols, holds_columns, law_block_round_trip,
    lemma_last_column_written, lemma_rows_split, lemma_wire_fields, wire_type, wire_types,
};
use crate::native::encode::{
    block_columns, column_tys, declared_type, each, encoded, fields_at, flat, has_custom,
    header_columns, rb_fields_end, row_of, SchemaView,
};
use crate::native::io::{claim, stands_at, WireView, MAX_STRING_SIZE};
use crate::native::laws::{lemma_tuple_layout, rows_fit, written_as};
use crate::native::name_laws::lemma_string_name;
use crate::native::rewrite::{
    fields_cell, fields_rewrite, lemma_push_field_rewrites, lemma_rewrites, lemma_solid_plain,
};
use crate::native::values::{
    all_fit, cell, cells, field_vals, fits, lemma_cells, total, tuple_rows, Val,
};

verus! {

/// Skipping fields ends where taking them does.
proof fn lemma_fields_end(d: Seq<u8>, ts: Seq<Ty>)
    ensures
        fields_at(d, ts) matches Ok((_, p)) ==> rb_fields_end(d, 0, ts) == Ok::<int, ErrorView>(p),
    decreases ts.len(),
{
    if ts.len() > 0 {
        assert(ts.drop_last() =~= ts.subrange(0, ts.len() - 1));
        lemma_fields_end(d, ts.drop_last());
    }
}

/// The value of one row.
proof fn lemma_row_value(d: Seq<u8>, columns: Seq<SchemaView>) -> (v: Val)
    requires
        all_solid(wire_types(columns)),
        row_of(column_tys(columns))(d) is Ok,
        canonical_fields(d, 0, wire_types(columns)),
    ensures
        fits(v, Ty::Tuple(wire_types(columns))),
        cell(v) == d,
{
    let ts = wire_types(columns);
    lemma_wire_fields(d, columns);
    lemma_fields_end(d, ts);
    let vs = lemma_fields(d, 0, ts, d.len() as int);
    assert(d.subrange(0, d.len() as int) =~= d);
    Val::Fields(vs)
}

/// The values of the rows.
proof fn lemma_row_values(rows: Seq<Seq<u8>>, columns: Seq<SchemaView>) -> (vals: Seq<Val>)
    requires
        all_solid(wire_types(columns)),
        each(rows, row_of(column_tys(columns))) is Ok,
        forall|r: int|
            0 <= r < rows.len() ==> canonical_fields(#[trigger] rows[r], 0, wire_types(columns)),
    ensures
        all_fit(vals, Ty::Tuple(wire_types(columns))),
        cells(vals) == rows,
        vals.len() == rows.len(),
    decreases rows.len(),
{
    if rows.len() == 0 {
        assert(rows =~= seq![]);
        Seq::empty()
    } else {
        let before = rows.drop_last();
        assert forall|r: int| 0 <= r < before.len() implies canonical_fields(
            #[trigger] before[r],
            0,
            wire_types(columns),
        ) by {
            assert(before[r] == rows[r]);
        }
        let vs = lemma_row_values(before, columns);
        assert(canonical_fields(rows[rows.len() - 1], 0, wire_types(columns)));
        let v = lemma_row_value(rows.last(), columns);
        let vals = vs.push(v);
        assert(vals.drop_last() =~= vs);
        assert(vals.subrange(0, vals.len() - 1) =~= vs);
        assert(cells(vals) =~= rows);
        vals
    }
}

/// The headers make the columns.
proof fn lemma_headers(headers: Seq<(Seq<char>, Seq<char>)>, k: int)
    requires
        header_columns(headers) is Ok,
        0 <= k < headers.len(),
    ensures
        ({
            let columns = header_columns(headers)->Ok_0;
            &&& columns.len() == headers.len()
            &&& columns[k].name == headers[k].0
            &&& columns[k].type_text == headers[k].1
            &&& type_of(headers[k].1) == Some(columns[k].ty)
        }),
    decreases headers.len(),
{
    let before = headers.drop_last();
    if before.len() > 0 {
        lemma_headers(
            before,
            if k < before.len() {
                k
            } else {
                0
            },
        );
    } else {
        assert(header_columns(before) == Ok::<Seq<SchemaView>, ErrorView>(seq![]));
    }
    let rest = header_columns(before)->Ok_0;
    assert(rest.len() == before.len());
    if k < before.len() {
        assert(before[k] == headers[k]);
        assert(header_columns(headers)->Ok_0[k] == rest[k]);
    }
}

/// A column made from a header is announced as it is declared.
proof fn lemma_announces(column: SchemaView)
    requires
        type_of(column.type_text) == Some(column.ty),
        solid(wire_type(column.ty)),
        vstd::utf8::encode_utf8(column.name).len() <= MAX_STRING_SIZE,
        vstd::utf8::encode_utf8(declared_type(column)).len() <= MAX_STRING_SIZE,
    ensures
        announces(column),
        nesting(wire_type(column.ty)) <= nesting(column.ty) <= 32,
{
    reveal(announces);
    law_parse_depth(column.type_text);
    lemma_solid_plain(wire_type(column.ty));
    lemma_string_name();
}

/// The typed columns of the values hold the rows.
#[verifier::rlimit(40)]
proof fn lemma_columns_rewrite(
    vals: Seq<Val>,
    columns: Seq<SchemaView>,
    custom: bool,
    out: Seq<u8>,
    m: nat,
)
    requires
        rows_fit(vals, wire_types(columns)),
        forall|k: int| 0 <= k < columns.len() ==> solid(wire_type((#[trigger] columns[k]).ty)),
        block_columns(tuple_rows(vals), columns, custom) == Ok::<Seq<u8>, ErrorView>(out),
        holds_columns(columns, total(vals), m),
        m <= usize::MAX,
    ensures
        fields_rewrite(field_cols(vals, wire_types(columns)), vals),
    decreases columns.len(),
{
    let ts = wire_types(columns);
    if columns.len() > 0 {
        let n = columns.len() - 1;
        let before = columns.drop_last();
        let t = wire_type(columns[n].ty);
        let (b1, b2) = lemma_last_column_written(vals, columns, custom, out);
        assert forall|k: int| 0 <= k < before.len() implies solid(
            wire_type((#[trigger] before[k]).ty),
        ) by {
            assert(before[k] == columns[k]);
        }
        assert(holds_columns(before, total(vals), m)) by {
            assert forall|k: int| 0 <= k < before.len() implies total(vals) + nesting(
                (#[trigger] before[k]).ty,
            ) <= m && arity(before[k].ty) <= m by {
                assert(before[k] == columns[k]);
            }
        }
        lemma_columns_rewrite(vals, before, custom, b1, m);
        assert(ts.subrange(0, n) =~= wire_types(before));
        assert(ts[n] == t);
        let fs = field_vals(vals, n);
        assert(written_as(fs, t, b2)) by {
            reveal(written_as);
        }
        assert(total(vals) + nesting(columns[n].ty) <= m);
        lemma_rewrites(fs, t, b2, m);
        lemma_push_field_rewrites(vals, ts);
    } else {
        reveal(fields_rewrite);
        assert(ts =~= seq![]);
        assert forall|r: int| 0 <= r < vals.len() implies #[trigger] fields_cell(
            field_cols(vals, ts),
            r,
        ) == flat(cells(vals[r]->Fields_0.take(field_cols(vals, ts).len() as int))) by {
            assert(vals[r]->Fields_0.take(0) =~= seq![]);
        }
    }
}

/// The columns of the block are the typed columns of the fields.
proof fn lemma_block_fields(vals: Seq<Val>, columns: Seq<SchemaView>)
    ensures
        block_of(vals, columns).columns == field_cols(vals, wire_types(columns)),
    decreases columns.len(),
{
    let ts = wire_types(columns);
    let fields = block_of(vals, columns).columns;
    if columns.len() > 0 {
        let before = columns.drop_last();
        lemma_block_fields(vals, before);
        assert(ts.subrange(0, ts.len() - 1) =~= wire_types(before));
        assert(fields.drop_last() =~= block_of(vals, before).columns);
        assert(fields =~= fields.drop_last().push(fields.last()));
    } else {
        assert(fields =~= seq![]);
        assert(ts =~= seq![]);
    }
}

proof fn lemma_all_solid(columns: Seq<SchemaView>)
    requires
        forall|k: int| 0 <= k < columns.len() ==> solid(wire_type((#[trigger] columns[k]).ty)) && nesting(
            wire_type(columns[k].ty),
        ) <= 32,
    ensures
        all_solid(wire_types(columns)),
        deepest(wire_types(columns)) <= 32,
    decreases columns.len(),
{
    if columns.len() > 0 {
        let before = columns.drop_last();
        let ts = wire_types(columns);
        assert forall|k: int| 0 <= k < before.len() implies solid(
            wire_type((#[trigger] before[k]).ty),
        ) && nesting(wire_type(before[k].ty)) <= 32 by {
            assert(before[k] == columns[k]);
        }
        lemma_all_solid(before);
        assert(ts.subrange(0, ts.len() - 1) =~= wire_types(before));
        assert(ts[ts.len() - 1] == wire_type(columns[columns.len() - 1].ty));
    } else {
        assert(wire_types(columns) =~= seq![]);
    }
}

/// No column holds a wider tuple than the widest.
proof fn lemma_arity(columns: Seq<SchemaView>, k: int)
    requires
        0 <= k < columns.len(),
    ensures
        arity(columns[k].ty) <= field_arity(column_tys(columns)),
    decreases columns.len(),
{
    let ts = column_tys(columns);
    let before = columns.drop_last();
    assert(ts.subrange(0, ts.len() - 1) =~= column_tys(before));
    assert(ts[ts.len() - 1] == columns[columns.len() - 1].ty);
    if k < before.len() {
        lemma_arity(before, k);
        assert(before[k] == columns[k]);
    }
}

/// How many elements no buffer exceeds that decoding `rows` takes: every byte
/// of a row stands for one value at most within each wrapper around it.
pub open spec fn largest_buffer(rows: Seq<Seq<u8>>, columns: Seq<SchemaView>) -> nat {
    34 * flat(rows).len() + 32 + field_arity(column_tys(columns)) + columns.len()
}

/// Whether the buffers that decoding `rows` takes are within the budget, and
/// their sizes are those of the machine.
pub open spec fn affords_rows(w: WireView, rows: Seq<Seq<u8>>, columns: Seq<SchemaView>) -> bool {
    &&& largest_buffer(rows, columns) <= usize::MAX
    &&& affords_typed(w, largest_buffer(rows, columns))
    &&& claim::<(String, String)>(columns.len(), w.budget) is Ok
}

/// Whether a column is declared by a type name other than its own: JSON is
/// written as strings.
pub open spec fn is_recast(column: SchemaView) -> bool {
    column.ty is Json || column.ty is NewJson
}

/// Decoding a block inverts encoding rows: where the encoded form of canonical
/// rows stands, under headers of types that have a typed form, decoding
/// consumes all of it, gives the rows their number and the columns their names
/// and declared types, which are the headers where no column is JSON, and every
/// row, written again column by column, is the row that was encoded.
///
/// Names past the cap on strings are left out, which the decoder refuses, and
/// buffers past the budget.
#[verifier::rlimit(40)]
pub proof fn law_rows_round_trip(
    w: WireView,
    pos: int,
    rows: Seq<Seq<u8>>,
    headers: Seq<(Seq<char>, Seq<char>)>,
    columns: Seq<SchemaView>,
    revision: u64,
    out: Seq<u8>,
)
    requires
        header_columns(headers) == Ok::<Seq<SchemaView>, ErrorView>(columns),
        0 < rows.len() <= MAX_BLOCK_ROWS,
        0 < headers.len() <= MAX_BLOCK_COLUMNS,
        forall|k: int|
            0 <= k < columns.len() ==> solid(wire_type((#[trigger] columns[k]).ty))
                && vstd::utf8::encode_utf8(columns[k].name).len() <= MAX_STRING_SIZE
                && vstd::utf8::encode_utf8(declared_type(columns[k])).len() <= MAX_STRING_SIZE,
        forall|r: int|
            0 <= r < rows.len() ==> canonical_fields(#[trigger] rows[r], 0, wire_types(columns)),
        encoded(rows, columns, revision) == Ok::<Seq<u8>, ErrorView>(out),
        stands_at(w.bytes, pos, out),
        w.bytes.len() <= usize::MAX,
        affords_rows(w, rows, columns),
    ensures
        block_at(w, pos, columns.len() as u64, rows.len() as u64, revision) matches Ok((block, end))
            && {
            &&& end == pos + out.len()
            &&& block.num_rows == rows.len()
            &&& block.schema == columns.map_values(|c: SchemaView| (c.name, declared_type(c)))
            &&& (forall|k: int| 0 <= k < columns.len() ==> !is_recast(#[trigger] columns[k]))
                ==> block.schema == headers
            &&& block.columns.len() == columns.len()
            &&& forall|r: int|
                0 <= r < rows.len() ==> #[trigger] fields_cell(block.columns, r) == rows[r]
        },
{
    let m = largest_buffer(rows, columns);
    lemma_headers(headers, 0);
    assert forall|k: int| 0 <= k < columns.len() implies announces(#[trigger] columns[k])
        && nesting(wire_type(columns[k].ty)) <= 32 by {
        lemma_headers(headers, k);
        lemma_announces(columns[k]);
    }
    lemma_all_solid(columns);
    let ts = wire_types(columns);
    let vals = lemma_row_values(rows, columns);
    lemma_total_bound(vals, Ty::Tuple(ts));
    let n = flat(rows).len();
    let k = nesting(Ty::Tuple(ts)) + 1;
    assert(k * n <= 34 * n) by (nonlinear_arith)
        requires
            k <= 34,
    ;
    assert(holds_columns(columns, total(vals), m)) by {
        assert forall|k: int| 0 <= k < columns.len() implies total(vals) + nesting(
            (#[trigger] columns[k]).ty,
        ) <= m && arity(columns[k].ty) <= m by {
            assert(announces(columns[k]));
            reveal(announces);
            lemma_arity(columns, k);
        }
    }
    law_block_round_trip(w, pos, vals, columns, revision, m, out);
    lemma_rows_split(vals, columns);
    lemma_tuple_layout(vals, ts);
    lemma_columns_rewrite(vals, columns, has_custom(revision), out, m);
    lemma_block_fields(vals, columns);
    let block = block_of(vals, columns);
    if forall|k: int| 0 <= k < columns.len() ==> !is_recast(#[trigger] columns[k]) {
        assert forall|k: int| 0 <= k < columns.len() implies #[trigger] block.schema[k]
            == headers[k] by {
            lemma_headers(headers, k);
            assert(!is_recast(columns[k]));
        }
        assert(block.schema =~= headers);
    }
    assert forall|r: int| 0 <= r < rows.len() implies #[trigger] fields_cell(block.columns, r)
        == rows[r] by {
        reveal(fields_rewrite);
        lemma_cells(vals);
        assert(cells(vals)[r] == cell(vals[r]));
        assert(vals[r] is Fields);
        assert(vals[r]->Fields_0.take(block.columns.len() as int) =~= vals[r]->Fields_0);
    }
}

} // verus!
