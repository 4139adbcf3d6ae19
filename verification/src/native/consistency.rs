//! What every column that reads holds: as many rows as the block declares.

use vstd::prelude::*;
use vstd::utf8::valid_utf8;

use crate::native::columns::{fixed_size, type_of, Ty};
use crate::native::decode::{
    all_untyped, announced_columns, announced_reader, block_at, block_reader, block_values_at,
    blocks16_at, custom_flag_at, decode_at, decode_fields_at, decode_prefixes_at, documents_of,
    empty_col, empty_cols, fixed_string_column_at, index_column_at, json_decoded_at, lc_head_at,
    lc_tail_at, le_column_at, le_reader, rising_at, scalar_at, text_reader, texts_at, unwrap_cell, utf8_doc, docs_of,
    wide_column_at, LeScalar,
};
use crate::native::decode_locality::{
    lemma_announced_local, lemma_decode_local, lemma_decode_prefixes_local,
};
use crate::native::decoded::{any_reports, field_rows, reports_rows, row_count_of, Col};
use crate::native::encode::{each, has_custom, lemma_each_len};
use crate::native::io::{
    lemma_many_len, lemma_table_len, many, u64_at, utf8_string_at, Read, WireView,
};
use crate::native::locality::{extends, lemma_many_local, lemma_string_local, longer};
use crate::native::reader::{
    all_shown, array_at, body_at, chosen_at, column_at, cut_arrays, document, dynamic_at,
    dynamic_body_at, dynamic_flat_at, ends_of, entries, fixed_cells, fixed_reader, flat_chosen_at,
    flat_types_at, json_body_at, last_or_zero, lc_indices_at, lc_reader, lc_width,
    lemma_nested_reader, low_cardinality_at, map_at, nested_reader, object, objects, offset_reader,
    offsets_at, prefixes_at, read_at, shown_at, string_cells, string_reader, wire_types, Cells,
    Chosen, MAX_READ_DEPTH, Nested, Types,
};

verus! {

// ---------------------------------------------------------------------------
// Cells
// ---------------------------------------------------------------------------

/// What was read has `n` rows.
pub open spec fn has_rows(read: Read<Cells>, n: nat) -> bool {
    read matches Ok((cells, _)) ==> cells.len() == n
}

proof fn lemma_ends_len(offsets: Seq<u64>, available: nat, what: Seq<char>)
    ensures
        ends_of(offsets, available, what) matches Ok(ends) ==> ends.len() == offsets.len(),
    decreases offsets.len(),
{
    if offsets.len() > 0 {
        lemma_ends_len(offsets.drop_last(), available, what);
    }
}

proof fn lemma_cut_len(items: Cells, offsets: Seq<u64>, what: Seq<char>)
    ensures
        cut_arrays(items, offsets, what) matches Ok(cells) ==> cells.len() == offsets.len(),
{
    lemma_ends_len(offsets, items.len(), what);
}

proof fn lemma_lists_rows(nested: Nested, w: WireView, pos: int, n: nat, k: Ty, v: Ty)
    ensures
        has_rows(array_at(nested, w, pos, n, v), n),
        has_rows(map_at(nested, w, pos, n, k, v), n),
{
    let read = offset_reader(w.bytes);
    lemma_many_len(read, pos, n);
    if let Ok((offsets, p)) = offsets_at(w, pos, n) {
        if let Ok((items, _)) = nested(p, v, last_or_zero(offsets)) {
            lemma_cut_len(items, offsets, "Array"@);
        }
        if let Ok((keys, q)) = nested(p, k, last_or_zero(offsets)) {
            if let Ok((vals, _)) = nested(q, v, last_or_zero(offsets)) {
                lemma_cut_len(entries(keys, vals), offsets, "Map"@);
            }
        }
    }
}

proof fn lemma_shown_rows(w: WireView, n: nat, types: Types, chosen: Read<Chosen>)
    ensures
        has_rows(shown_at(w, n, types, chosen), n),
{
    if let Ok((c, _)) = chosen {
        lemma_table_len(document(w, types, c), n);
    }
}

proof fn lemma_strings_rows(w: WireView, pos: int, n: nat)
    ensures
        has_rows(string_cells(w, pos, n), n),
{
    lemma_many_len(string_reader(w.bytes), pos, n);
}

proof fn lemma_fixed_rows(w: WireView, pos: int, n: nat, size: nat)
    ensures
        has_rows(fixed_cells(w, pos, n, size), n),
{
    lemma_many_len(fixed_reader(w.bytes, size), pos, n);
}

proof fn lemma_low_cardinality_rows(nested: Nested, w: WireView, pos: int, n: nat, inner: Ty)
    ensures
        has_rows(low_cardinality_at(nested, w, pos, n, inner), n),
{
    assert forall|p: int, state: u64, dict: Cells, nullable: bool| has_rows(
        #[trigger] lc_indices_at(w, p, n, state, dict, nullable),
        n,
    ) by {
        let read = lc_reader(
            w.bytes,
            dict,
            nullable,
            lc_width(state),
        );
        if let Ok((_, q)) = u64_at(w.bytes, p) {
            lemma_many_len(read, q, n);
        }
    }
}

proof fn lemma_dynamic_rows(nested: Nested, w: WireView, pos: int, n: nat)
    ensures
        has_rows(dynamic_at(nested, w, pos, n), n),
{
    assert forall|p: int, names: Seq<Seq<char>>| has_rows(
        #[trigger] dynamic_body_at(nested, w, p, n, names),
        n,
    ) by {
        if let Ok(types) = wire_types(names) {
            lemma_shown_rows(
                w,
                n,
                types,
                chosen_at(nested, w, p, n, types.ts),
            );
        }
    }
    assert forall|p: int| has_rows(#[trigger] dynamic_flat_at(nested, w, p, n), n) by {
        if let Ok((ts, q)) = flat_types_at(w, p) {
            lemma_shown_rows(
                w,
                n,
                all_shown(ts),
                flat_chosen_at(nested, w, q, n, ts),
            );
        }
    }
}

proof fn lemma_json_body_rows(nested: Nested, w: WireView, pos: int, n: nat, version: u64)
    ensures
        has_rows(json_body_at(nested, w, pos, n, version), n),
{
    lemma_strings_rows(w, pos, n);
    assert forall|names: Seq<Seq<char>>, types: Seq<Types>, chosen: Seq<Chosen>| (#[trigger] objects(
        w,
        names,
        types,
        chosen,
        n,
    )) matches Ok(cells) ==> cells.len() == n by {
        lemma_table_len(object(w, names, types, chosen), n);
    }
}

proof fn lemma_body_rows(nested: Nested, w: WireView, pos: int, t: Ty, rows: u64)
    requires
        t matches Ty::SimpleAggregateFunction(x) ==> has_rows(nested(pos, *x, rows), rows as nat),
    ensures
        has_rows(body_at(nested, w, pos, t, rows), rows as nat),
{
    reveal(body_at);
    let n = rows as nat;
    match fixed_size(t) {
        Some(size) => {
            lemma_fixed_rows(w, pos, n, size as nat);
        },
        None => match t {
            Ty::Point => {},
            Ty::String => {
                lemma_strings_rows(w, pos, n);
            },
            Ty::Json => {
                lemma_strings_rows(w, pos, n);
            },
            Ty::Nullable(x) => {},
            Ty::LowCardinality(x) => {
                lemma_low_cardinality_rows(nested, w, pos, n, *x);
            },
            Ty::SimpleAggregateFunction(x) => {},
            Ty::Array(x) => {
                lemma_lists_rows(nested, w, pos, n, *x, *x);
            },
            Ty::Tuple(ts) => {},
            Ty::Mapping(k, v) => {
                lemma_lists_rows(nested, w, pos, n, *k, *v);
            },
            Ty::Variant(ts) => {
                lemma_shown_rows(
                    w,
                    n,
                    all_shown(ts),
                    chosen_at(nested, w, pos, n, ts),
                );
            },
            Ty::NewJson => {
                if let Ok((version, p)) = u64_at(w.bytes, pos) {
                    lemma_json_body_rows(nested, w, p, n, version);
                }
            },
            _ => {
                lemma_dynamic_rows(nested, w, pos, n);
            },
        },
    }
}

proof fn lemma_read_rows(w: WireView, pos: int, t: Ty, rows: u64, depth: nat)
    ensures
        has_rows(read_at(w, pos, t, rows, depth), rows as nat),
    decreases 34 - depth,
{
    if depth <= MAX_READ_DEPTH {
        if let Ty::SimpleAggregateFunction(x) = t {
            lemma_read_rows(w, pos, *x, rows, depth + 1);
            lemma_nested_reader(w, pos, *x, rows, depth + 1);
        }
        lemma_body_rows(nested_reader(w, depth + 1), w, pos, t, rows);
    }
}

/// A column that reads has exactly the rows that were asked for.
pub proof fn law_column_rows(w: WireView, pos: int, t: Ty, rows: u64)
    ensures
        column_at(w, pos, t, rows) matches Ok((cells, _)) ==> cells.len() == rows,
{
    if rows > 0 {
        if let Ok((_, p)) = prefixes_at(w, pos, t, 0) {
            lemma_read_rows(w, p, t, rows, 0);
        }
    } else {
        lemma_read_rows(w, pos, t, rows, 0);
    }
}

// ---------------------------------------------------------------------------
// Typed columns
// ---------------------------------------------------------------------------

/// Bytes extend themselves.
proof fn lemma_own(w: WireView)
    ensures
        extends(w, w),
        longer(w.bytes, w.bytes),
{
    assert(w.bytes.take(w.bytes.len() as int) =~= w.bytes);
}

/// Where a column with a typed form was decoded, it tells how many rows it has,
/// and has `n` of them.
pub open spec fn has_col_rows(read: Read<Col>, n: nat) -> bool {
    read matches Ok((c, _)) ==> c is Unsupported || (reports_rows(c) && row_count_of(c) == n)
}

proof fn lemma_empty_rows(t: Ty)
    ensures
        row_count_of(empty_col(t)) == 0,
    decreases t,
{
    match t {
        Ty::Tuple(ts) => {
            lemma_empty_field_rows(ts);
        },
        Ty::SimpleAggregateFunction(x) => {
            lemma_empty_rows(*x);
        },
        Ty::LowCardinality(x) => {
            assert(row_count_of(Col::UInt8(seq![])) == 0);
        },
        _ => {},
    }
}

proof fn lemma_empty_field_rows(ts: Seq<Ty>)
    ensures
        field_rows(empty_cols(ts)) == 0,
    decreases ts,
{
    if ts.len() > 0 {
        let before = ts.subrange(0, ts.len() - 1);
        let all = empty_cols(ts);
        assert(all.subrange(0, all.len() - 1) =~= empty_cols(before));
        lemma_empty_field_rows(before);
        lemma_empty_rows(ts[ts.len() - 1]);
    }
}

proof fn lemma_le_rows<T: LeScalar>(w: WireView, pos: int, n: nat)
    ensures
        le_column_at::<T>(w, pos, n) matches Ok((v, _)) ==> v.len() == n,
{
    lemma_many_len(le_reader::<T>(w.bytes), pos, n);
}

proof fn lemma_documents_rows(read: Read<Cells>, n: nat)
    requires
        has_rows(read, n),
    ensures
        has_col_rows(documents_of(read), n),
{
    if let Ok((cells, _)) = read {
        lemma_each_len(cells, unwrap_cell());
        if let Ok(docs) = each(cells, unwrap_cell()) {
            lemma_each_len(docs, utf8_doc());
        }
    }
}

proof fn lemma_texts_rows(w: WireView, pos: int, n: nat)
    ensures
        texts_at(w, pos, n) matches Ok((v, _)) ==> v.len() == n,
        has_col_rows(docs_of(texts_at(w, pos, n)), n),
{
    if let Ok((v, _)) = texts_at(w, pos, n) {
        lemma_each_len(v, utf8_doc());
    }
    lemma_many_len(text_reader(w.bytes), pos, n);
}

proof fn lemma_blocks_rows(w: WireView, pos: int, n: nat)
    ensures
        wide_column_at(w, pos, n) matches Ok((v, _)) ==> v.len() == n,
        blocks16_at(w, pos, n) matches Ok((v, _)) ==> v.len() == n,
{
    lemma_many_len(block_reader(w.bytes, 32), pos, n);
    lemma_many_len(block_reader(w.bytes, 16), pos, n);
}

proof fn lemma_fixed_string_rows(w: WireView, pos: int, n: nat, width: usize)
    requires
        0 <= pos,
    ensures
        has_col_rows(fixed_string_column_at(w, pos, n, width), n),
{
    if width > 0 {
        let m = width as int;
        assert((m * n) / m == n) by (nonlinear_arith)
            requires
                m > 0,
        ;
        assert(m * n >= 0) by (nonlinear_arith)
            requires
                m > 0,
                n >= 0,
        ;
    }
}

proof fn lemma_json_rows(w: WireView, pos: int, n: nat)
    ensures
        has_col_rows(json_decoded_at(w, pos, n), n),
{
    if let Ok((version, p)) = u64_at(w.bytes, pos) {
        lemma_texts_rows(w, p, n);
        lemma_json_body_rows(nested_reader(w, 1), w, p, n, version);
        lemma_documents_rows(json_body_at(nested_reader(w, 1), w, p, n, version), n);
    }
}

#[verifier::rlimit(40)]
proof fn lemma_scalar_rows(w: WireView, pos: int, t: Ty, rows: u64)
    requires
        0 <= pos,
    ensures
        scalar_at(w, pos, t, rows) matches Some(read) ==> has_col_rows(read, rows as nat),
{
    let n = rows as nat;
    lemma_le_rows::<u16>(w, pos, n);
    lemma_le_rows::<u32>(w, pos, n);
    lemma_le_rows::<u64>(w, pos, n);
    lemma_le_rows::<u128>(w, pos, n);
    lemma_le_rows::<i16>(w, pos, n);
    lemma_le_rows::<i32>(w, pos, n);
    lemma_le_rows::<i64>(w, pos, n);
    lemma_le_rows::<i128>(w, pos, n);
    lemma_texts_rows(w, pos, n);
    lemma_blocks_rows(w, pos, n);
    lemma_json_rows(w, pos, n);
    if let Ty::FixedString(width) = t {
        lemma_fixed_string_rows(w, pos, n, width);
    }
    law_column_rows(w, pos, t, rows);
    lemma_documents_rows(column_at(w, pos, t, rows), n);
}

proof fn lemma_rising_len(d: Seq<u8>, pos: int, n: nat, what: Seq<char>)
    ensures
        rising_at(d, pos, n, what) matches Ok((xs, _)) ==> xs.len() == n,
    decreases n,
{
    if n > 0 {
        lemma_rising_len(d, pos, (n - 1) as nat, what);
    }
}

proof fn lemma_index_rows(w: WireView, pos: int, n: nat, flags: u64)
    requires
        0 <= pos,
    ensures
        index_column_at(w, pos, n, flags) matches Ok((c, _)) ==> reports_rows(c) && row_count_of(c)
            == n,
{
    lemma_le_rows::<u16>(w, pos, n);
    lemma_le_rows::<u32>(w, pos, n);
    lemma_le_rows::<u64>(w, pos, n);
}

proof fn lemma_tail_rows(
    w: WireView,
    pos: int,
    rows: u64,
    flags: u64,
    dict: Col,
    nullable: bool,
)
    requires
        0 <= pos,
    ensures
        has_col_rows(lc_tail_at(w, pos, rows, flags, dict, nullable), rows as nat),
{
    if let Ok((_, p)) = u64_at(w.bytes, pos) {
        lemma_index_rows(w, p, rows as nat, flags);
    }
}

/// Columns of which one has a typed form tell how many rows they have.
proof fn lemma_typed_field_rows(fields: Seq<Col>, n: nat)
    requires
        !all_untyped(fields),
        forall|i: int|
            0 <= i < fields.len() ==> (#[trigger] fields[i]) is Unsupported || (reports_rows(
                fields[i],
            ) && row_count_of(fields[i]) == n),
    ensures
        any_reports(fields),
        field_rows(fields) == n,
    decreases fields.len(),
{
    let before = fields.subrange(0, fields.len() - 1);
    if all_untyped(before) {
        lemma_untyped_field_rows(before);
        assert(fields[fields.len() - 1] is Unsupported ==> all_untyped(fields)) by {
            assert forall|i: int| 0 <= i < fields.len() - 1 implies #[trigger] fields[i] is Unsupported by {
                assert(before[i] is Unsupported);
            }
        }
    } else {
        assert forall|i: int| 0 <= i < before.len() implies (#[trigger] before[i]) is Unsupported || (
        reports_rows(before[i]) && row_count_of(before[i]) == n) by {
            assert(before[i] == fields[i]);
        }
        lemma_typed_field_rows(before, n);
    }
}

proof fn lemma_untyped_field_rows(fields: Seq<Col>)
    requires
        all_untyped(fields),
    ensures
        !any_reports(fields),
    decreases fields.len(),
{
    if fields.len() > 0 {
        let before = fields.subrange(0, fields.len() - 1);
        assert forall|i: int| 0 <= i < before.len() implies #[trigger] before[i] is Unsupported by {
            assert(fields[i] is Unsupported);
        }
        lemma_untyped_field_rows(before);
        let last = fields[fields.len() - 1];
        assert(last is Unsupported);
        assert(!reports_rows(last));
    }
}

/// Every one of several columns has the rows that were asked for.
proof fn lemma_decode_field_rows(w: WireView, pos: int, ts: Seq<Ty>, rows: u64, depth: nat)
    requires
        0 <= pos,
        depth > 0,
    ensures
        decode_fields_at(w, pos, ts, rows, depth) matches Ok((fields, p)) ==> p >= 0 && forall|
            i: int,
        |
            0 <= i < fields.len() ==> (#[trigger] fields[i]) is Unsupported || (reports_rows(
                fields[i],
            ) && row_count_of(fields[i]) == rows),
    decreases ts,
{
    if ts.len() > 0 {
        let before = ts.subrange(0, ts.len() - 1);
        lemma_decode_field_rows(w, pos, before, rows, depth);
        if let Ok((_, p)) = decode_fields_at(w, pos, before, rows, depth) {
            lemma_decode_rows(w, p, ts[ts.len() - 1], rows, depth);
            lemma_own(w);
            lemma_decode_local(w, w, p, ts[ts.len() - 1], rows, depth);
        }
    }
}

#[verifier::rlimit(40)]
proof fn lemma_decode_rows(w: WireView, pos: int, t: Ty, rows: u64, depth: nat)
    requires
        0 <= pos,
    ensures
        depth > 0 || rows > 0 ==> has_col_rows(decode_at(w, pos, t, rows, depth), rows as nat),
        decode_at(w, pos, t, rows, depth) matches Ok((c, _)) ==> c is Unsupported || row_count_of(c)
            == rows,
    decreases t,
{
    let n = rows as nat;
    lemma_empty_rows(t);
    lemma_scalar_rows(w, pos, t, rows);
    if scalar_at(w, pos, t, rows) is None && depth <= 32 && !(depth == 0 && rows == 0) && rows
        <= usize::MAX {
        match t {
            Ty::Nullable(x) => {},
            Ty::Array(x) => {
                lemma_rising_len(w.bytes, pos, n, "Array"@);
            },
            Ty::Mapping(k, v) => {
                lemma_rising_len(w.bytes, pos, n, "Map"@);
            },
            Ty::Tuple(ts) => {
                lemma_decode_field_rows(w, pos, ts, rows, depth + 1);
                if let Ok((fields, _)) = decode_fields_at(w, pos, ts, rows, depth + 1) {
                    if !all_untyped(fields) {
                        lemma_typed_field_rows(fields, n);
                    }
                }
            },
            Ty::LowCardinality(x) => {
                if let Ok(((flags, size), p)) = lc_head_at(w, pos) {
                    let dict = match *x {
                        Ty::Nullable(y) => decode_at(w, p, *y, size, depth + 1),
                        _ => decode_at(w, p, *x, size, depth + 1),
                    };
                    lemma_own(w);
                    match *x {
                        Ty::Nullable(y) => {
                            lemma_decode_local(w, w, p, *y, size, depth + 1);
                        },
                        _ => {
                            lemma_decode_local(w, w, p, *x, size, depth + 1);
                        },
                    }
                    if let Ok((d, q)) = dict {
                        lemma_tail_rows(w, q, rows, flags, d, *x is Nullable);
                    }
                }
            },
            Ty::SimpleAggregateFunction(x) => {
                lemma_decode_rows(w, pos, *x, rows, depth + 1);
            },
            _ => {},
        }
    }
}

/// Documents that were let through are UTF-8.
proof fn lemma_docs(docs: Cells)
    ensures
        each(docs, utf8_doc()) matches Ok(out) ==> forall|i: int|
            0 <= i < out.len() ==> valid_utf8(#[trigger] out[i]),
    decreases docs.len(),
{
    if docs.len() > 0 {
        lemma_docs(docs.drop_last());
        lemma_each_len(docs.drop_last(), utf8_doc());
    }
}

proof fn lemma_docs_of(read: Read<Cells>)
    ensures
        docs_of(read) matches Ok((c, _)) ==> c is Json && forall|i: int|
            0 <= i < c->Json_0.len() ==> valid_utf8(#[trigger] c->Json_0[i]),
{
    if let Ok((docs, _)) = read {
        lemma_docs(docs);
    }
}

proof fn lemma_documents_of(read: Read<Cells>)
    ensures
        documents_of(read) matches Ok((c, _)) ==> c is Json && forall|i: int|
            0 <= i < c->Json_0.len() ==> valid_utf8(#[trigger] c->Json_0[i]),
{
    if let Ok((cells, p)) = read {
        if let Ok(docs) = each(cells, unwrap_cell()) {
            lemma_docs_of(Ok((docs, p)));
        }
    }
}

/// Every JSON document that decodes is UTF-8.
#[verifier::rlimit(40)]
pub proof fn law_documents_are_utf8(w: WireView, pos: int, t: Ty, rows: u64, depth: nat)
    ensures
        decode_at(w, pos, t, rows, depth) matches Ok((Col::Json(docs), _)) ==> forall|i: int|
            0 <= i < docs.len() ==> valid_utf8(#[trigger] docs[i]),
    decreases t,
{
    match t {
        Ty::Json => {
            lemma_docs_of(texts_at(w, pos, rows as nat));
        },
        Ty::NewJson => {
            if let Ok((version, p)) = u64_at(w.bytes, pos) {
                lemma_docs_of(texts_at(w, p, rows as nat));
                lemma_documents_of(
                    json_body_at(nested_reader(w, 1), w, p, rows as nat, version),
                );
            }
        },
        Ty::Variant(_) => {
            lemma_documents_of(column_at(w, pos, t, rows));
        },
        Ty::Dynamic => {
            lemma_documents_of(column_at(w, pos, t, rows));
        },
        Ty::SimpleAggregateFunction(x) => {
            law_documents_are_utf8(w, pos, *x, rows, depth + 1);
            lemma_empty_documents(*x);
        },
        _ => {},
    }
}

proof fn lemma_empty_documents(t: Ty)
    ensures
        empty_col(t) matches Col::Json(docs) ==> docs.len() == 0,
    decreases t,
{
    if let Ty::SimpleAggregateFunction(x) = t {
        lemma_empty_documents(*x);
    }
}

// ---------------------------------------------------------------------------
// Blocks
// ---------------------------------------------------------------------------

proof fn lemma_values_rows(w: WireView, pos: int, t: Ty, rows: u64)
    requires
        0 <= pos,
    ensures
        block_values_at(w, pos, t, rows) matches Ok((c, _)) ==> c is Unsupported || row_count_of(c)
            == rows,
{
    if rows > 0 {
        lemma_own(w);
        lemma_decode_prefixes_local(w, w, pos, t, 0);
        if let Ok((_, p)) = decode_prefixes_at(w, pos, t, 0) {
            lemma_decode_rows(w, p, t, rows, 0);
        }
    } else {
        lemma_decode_rows(w, pos, t, rows, 0);
    }
}

proof fn lemma_announced_rows(w: WireView, pos: int, rows: u64, custom: bool)
    requires
        0 <= pos,
    ensures
        announced_reader(w, rows, custom)(pos) matches Ok((a, _)) ==> a.1 is Unsupported
            || row_count_of(a.1) == rows,
{
    lemma_own(w);
    lemma_string_local(w.bytes, w.bytes, pos);
    if let Ok((name, p)) = utf8_string_at(w.bytes, pos) {
        lemma_string_local(w.bytes, w.bytes, p);
        if let Ok((declared, q)) = utf8_string_at(w.bytes, p) {
            if let Ok((_, s)) = custom_flag_at(w, q, custom, name) {
                if let Some(t) = type_of(declared) {
                    lemma_values_rows(w, s, t, rows);
                }
            }
        }
    }
}

proof fn lemma_all_announced_rows(w: WireView, pos: int, rows: u64, custom: bool, n: nat)
    requires
        0 <= pos,
    ensures
        many(announced_reader(w, rows, custom), pos, n) matches Ok((all, _)) ==> all.len() == n
            && forall|i: int|
            0 <= i < n ==> (#[trigger] all[i]).1 is Unsupported || row_count_of(all[i].1) == rows,
    decreases n,
{
    if n > 0 {
        lemma_all_announced_rows(w, pos, rows, custom, (n - 1) as nat);
        let read = announced_reader(w, rows, custom);
        lemma_own(w);
        lemma_announced_local(w, w, rows, custom);
        lemma_many_local(read, read, pos, (n - 1) as nat, w.bytes.len());
        if let Ok((_, p)) = many(read, pos, (n - 1) as nat) {
            lemma_announced_rows(w, p, rows, custom);
        }
    }
}

/// A block that decodes is consistent: it has one column per schema entry, as
/// many as were announced, and every column that reports its rows has exactly
/// as many as the block declares.
pub proof fn law_block_is_consistent(
    w: WireView,
    pos: int,
    num_columns: u64,
    num_rows: u64,
    revision: u64,
)
    requires
        0 <= pos,
    ensures
        block_at(w, pos, num_columns, num_rows, revision) matches Ok((block, _)) ==> {
            &&& block.columns.len() == num_columns
            &&& block.schema.len() == num_columns
            &&& block.num_rows == num_rows
            &&& forall|i: int|
                0 <= i < num_columns ==> (#[trigger] block.columns[i]) is Unsupported
                    || row_count_of(block.columns[i]) == num_rows
        },
{
    let custom = has_custom(revision);
    lemma_all_announced_rows(w, pos, num_rows, custom, num_columns as nat);
    if let Ok((all, _)) = many(announced_reader(w, num_rows, custom), pos, num_columns as nat) {
        assert forall|i: int| 0 <= i < num_columns implies #[trigger] announced_columns(all)[i]
            == all[i].1 by {}
    }
}

} // verus!
