//! What the encoder promises of the headers it accepts.

use vstd::prelude::*;

use crate::error::ErrorView;
use crate::native::columns::{fixed_size, Ty};
use crate::native::encode::{
    all_encodable, array_of, block_columns, col_bytes, column, column_tys,
    dictionary_overflow, each, encodable, encoded, fields_at, fields_bytes, firsts, flat,
    first_dict, has_custom, header_columns, is_flat, item_reader, lc_keys, lc_scan, map_of,
    null_values, pair_reader, rb_end, rb_fields_end, rb_run_end, rb_var_uint, row_of, seconds,
    trailing, truncated, tuple_of, SchemaView,
};
use crate::native::io::{groups_at, many, var_uint_overflow};

verus! {

/// Whether the bytes of a row are at fault, and not its type: they end early,
/// or hold a number past its ceiling.
pub open spec fn blames_bytes(e: ErrorView) -> bool {
    e == truncated() || e == var_uint_overflow()
}

proof fn lemma_groups_blame(d: Seq<u8>, pos: int, left: nat)
    ensures
        groups_at(d, pos, left) matches Err(e) ==> e == ErrorView::NotEnoughData || e
            == var_uint_overflow(),
    decreases left,
{
    if left > 0 {
        lemma_groups_blame(d, pos + 1, (left - 1) as nat);
    }
}

proof fn lemma_var_uint_blame(d: Seq<u8>, pos: int)
    ensures
        rb_var_uint(d, pos) matches Err(e) ==> blames_bytes(e),
{
    lemma_groups_blame(d, pos, 10);
}

proof fn lemma_end_blame(d: Seq<u8>, pos: int, t: Ty)
    requires
        encodable(t),
    ensures
        rb_end(d, pos, t) matches Err(e) ==> blames_bytes(e),
    decreases t, 2nat, 0nat,
{
    lemma_var_uint_blame(d, pos);
    if fixed_size(t) is None {
        match t {
            Ty::Nullable(x) => {
                lemma_end_blame(d, pos + 1, *x);
            },
            Ty::LowCardinality(x) => {
                lemma_end_blame(d, pos, *x);
            },
            Ty::Array(_) => {
                if let Ok((count, p)) = rb_var_uint(d, pos) {
                    lemma_run_blame(d, p, t, count as nat);
                }
            },
            Ty::Mapping(_, _) => {
                if let Ok((count, p)) = rb_var_uint(d, pos) {
                    lemma_run_blame(d, p, t, count as nat);
                }
            },
            Ty::Tuple(ts) => {
                lemma_fields_end_blame(d, pos, ts);
            },
            _ => {},
        }
    }
}

proof fn lemma_run_blame(d: Seq<u8>, pos: int, t: Ty, n: nat)
    requires
        t is Array || t is Mapping,
        encodable(t),
    ensures
        rb_run_end(d, pos, t, n) matches Err(e) ==> blames_bytes(e),
    decreases t, 1nat, n,
{
    if n > 0 {
        lemma_run_blame(d, pos, t, (n - 1) as nat);
        if let Ok(p) = rb_run_end(d, pos, t, (n - 1) as nat) {
            match t {
                Ty::Array(x) => {
                    lemma_end_blame(d, p, *x);
                },
                Ty::Mapping(k, v) => {
                    lemma_end_blame(d, p, *k);
                    if let Ok(q) = rb_end(d, p, *k) {
                        lemma_end_blame(d, q, *v);
                    }
                },
                _ => {},
            }
        }
    }
}

proof fn lemma_fields_end_blame(d: Seq<u8>, pos: int, ts: Seq<Ty>)
    requires
        all_encodable(ts),
    ensures
        rb_fields_end(d, pos, ts) matches Err(e) ==> blames_bytes(e),
    decreases ts, 0nat, 0nat,
{
    if ts.len() > 0 {
        let before = ts.subrange(0, ts.len() - 1);
        lemma_fields_end_blame(d, pos, before);
        if let Ok(p) = rb_fields_end(d, pos, before) {
            lemma_end_blame(d, p, ts[ts.len() - 1]);
        }
    }
}

proof fn lemma_fields_at_blame(d: Seq<u8>, ts: Seq<Ty>)
    requires
        all_encodable(ts),
    ensures
        fields_at(d, ts) matches Err(e) ==> blames_bytes(e),
    decreases ts.len(),
{
    if ts.len() > 0 {
        let before = ts.drop_last();
        assert(before =~= ts.subrange(0, ts.len() - 1));
        lemma_fields_at_blame(d, before);
        if let Ok((_, p)) = fields_at(d, before) {
            lemma_end_blame(d, p, ts.last());
        }
    }
}

proof fn lemma_many_blame<T>(read: spec_fn(int) -> Result<(T, int), ErrorView>, pos: int, n: nat)
    requires
        forall|p: int| (#[trigger] read(p)) matches Err(e) ==> blames_bytes(e),
    ensures
        many(read, pos, n) matches Err(e) ==> blames_bytes(e),
    decreases n,
{
    if n > 0 {
        lemma_many_blame(read, pos, (n - 1) as nat);
        if let Ok((_, p)) = many(read, pos, (n - 1) as nat) {
            assert(read(p) matches Err(e) ==> blames_bytes(e));
        }
    }
}

proof fn lemma_each_blame<T>(
    cells: Seq<Seq<u8>>,
    f: spec_fn(Seq<u8>) -> Result<T, ErrorView>,
)
    requires
        forall|c: Seq<u8>| (#[trigger] f(c)) matches Err(e) ==> blames_bytes(e),
    ensures
        each(cells, f) matches Err(e) ==> blames_bytes(e),
    decreases cells.len(),
{
    if cells.len() > 0 {
        lemma_each_blame(cells.drop_last(), f);
        assert(f(cells.last()) matches Err(e) ==> blames_bytes(e));
    }
}

proof fn lemma_items_blame(x: Ty)
    requires
        encodable(x),
    ensures
        forall|d: Seq<u8>| (#[trigger] array_of(x)(d)) matches Err(e) ==> blames_bytes(e),
{
    assert forall|d: Seq<u8>| (#[trigger] array_of(x)(d)) is Err implies blames_bytes(
        array_of(x)(d)->Err_0,
    ) by {
        lemma_var_uint_blame(d, 0);
        let read = item_reader(d, x);
        assert forall|p: int| (#[trigger] read(p)) is Err implies blames_bytes(read(p)->Err_0) by {
            lemma_end_blame(d, p, x);
        }
        if let Ok((count, p)) = rb_var_uint(d, 0) {
            lemma_many_blame(read, p, count as nat);
        }
    }
}

proof fn lemma_pairs_blame(k: Ty, v: Ty)
    requires
        encodable(k),
        encodable(v),
    ensures
        forall|d: Seq<u8>| (#[trigger] map_of(k, v)(d)) matches Err(e) ==> blames_bytes(e),
{
    assert forall|d: Seq<u8>| (#[trigger] map_of(k, v)(d)) is Err implies blames_bytes(
        map_of(k, v)(d)->Err_0,
    ) by {
        lemma_var_uint_blame(d, 0);
        let read = pair_reader(d, k, v);
        assert forall|p: int| (#[trigger] read(p)) is Err implies blames_bytes(read(p)->Err_0) by {
            lemma_end_blame(d, p, k);
            if let Ok(q) = rb_end(d, p, k) {
                lemma_end_blame(d, q, v);
            }
        }
        if let Ok((count, p)) = rb_var_uint(d, 0) {
            lemma_many_blame(read, p, count as nat);
        }
    }
}

proof fn lemma_scan_blame(keys: Seq<Option<Seq<u8>>>, head: Seq<Seq<u8>>)
    ensures
        lc_scan(keys, head) matches Err(e) ==> e == dictionary_overflow(),
    decreases keys.len(),
{
    if keys.len() > 0 {
        lemma_scan_blame(keys.drop_last(), head);
    }
}

proof fn lemma_column_blame(cells: Seq<Seq<u8>>, t: Ty)
    requires
        encodable(t),
    ensures
        col_bytes(cells, t) matches Err(e) ==> blames_bytes(e) || e == dictionary_overflow(),
    decreases t,
{
    if !is_flat(t) {
        match t {
            Ty::Nullable(x) => {
                lemma_column_blame(null_values(cells, *x), *x);
            },
            Ty::LowCardinality(x) => {
                let keys = lc_keys(cells, *x is Nullable);
                lemma_scan_blame(keys, first_dict(*x));
                if let Ok((dict, _)) = lc_scan(keys, first_dict(*x)) {
                    assert(encodable(*x));
                    match *x {
                        Ty::Nullable(y) => {
                            lemma_column_blame(dict, *y);
                        },
                        _ => {
                            lemma_column_blame(dict, *x);
                        },
                    }
                }
            },
            Ty::Array(x) => {
                lemma_items_blame(*x);
                lemma_each_blame(cells, array_of(*x));
                if let Ok(lists) = each(cells, array_of(*x)) {
                    lemma_column_blame(flat(lists), *x);
                }
            },
            Ty::Mapping(k, v) => {
                lemma_pairs_blame(*k, *v);
                lemma_each_blame(cells, map_of(*k, *v));
                if let Ok(lists) = each(cells, map_of(*k, *v)) {
                    lemma_column_blame(firsts(flat(lists)), *k);
                    lemma_column_blame(seconds(flat(lists)), *v);
                }
            },
            Ty::Tuple(ts) => {
                assert forall|d: Seq<u8>| (#[trigger] tuple_of(ts)(d)) is Err implies blames_bytes(
                    tuple_of(ts)(d)->Err_0,
                ) by {
                    lemma_fields_at_blame(d, ts);
                }
                lemma_each_blame(cells, tuple_of(ts));
                if let Ok(rows) = each(cells, tuple_of(ts)) {
                    lemma_fields_blame(rows, ts);
                }
            },
            _ => {},
        }
    }
}

proof fn lemma_fields_blame(rows: Seq<Seq<Seq<u8>>>, ts: Seq<Ty>)
    requires
        all_encodable(ts),
    ensures
        fields_bytes(rows, ts) matches Err(e) ==> blames_bytes(e) || e == dictionary_overflow(),
    decreases ts,
{
    if ts.len() > 0 {
        lemma_fields_blame(rows, ts.subrange(0, ts.len() - 1));
        lemma_column_blame(column(rows, ts.len() - 1), ts[ts.len() - 1]);
    }
}

proof fn lemma_block_blame(cells: Seq<Seq<Seq<u8>>>, columns: Seq<SchemaView>, custom: bool)
    requires
        all_encodable(column_tys(columns)),
    ensures
        block_columns(cells, columns, custom) matches Err(e) ==> blames_bytes(e) || e
            == dictionary_overflow(),
    decreases columns.len(),
{
    if columns.len() > 0 {
        let ts = column_tys(columns);
        assert(ts.subrange(0, ts.len() - 1) =~= column_tys(columns.drop_last()));
        lemma_block_blame(cells, columns.drop_last(), custom);
        lemma_column_blame(column(cells, columns.len() - 1), columns.last().ty);
    }
}

proof fn lemma_headers_encodable(headers: Seq<(Seq<char>, Seq<char>)>)
    ensures
        header_columns(headers) matches Ok(columns) ==> all_encodable(column_tys(columns)),
    decreases headers.len(),
{
    if headers.len() > 0 {
        lemma_headers_encodable(headers.drop_last());
        if let Ok(columns) = header_columns(headers) {
            let before = header_columns(headers.drop_last())->Ok_0;
            let ts = column_tys(columns);
            assert(ts.subrange(0, ts.len() - 1) =~= column_tys(before));
        }
    } else {
        assert(column_tys(Seq::<SchemaView>::empty()) =~= seq![]);
    }
}

proof fn lemma_rows_blame(rows: Seq<Seq<u8>>, ts: Seq<Ty>)
    requires
        all_encodable(ts),
    ensures
        each(rows, row_of(ts)) matches Err(e) ==> blames_bytes(e) || exists|left: nat|
            e == #[trigger] trailing(left, ts.len()),
    decreases rows.len(),
{
    if rows.len() > 0 {
        lemma_rows_blame(rows.drop_last(), ts);
        let d = rows.last();
        lemma_fields_at_blame(d, ts);
        if let Ok((_, p)) = fields_at(d, ts) {
            let e = trailing((d.len() - p) as nat, ts.len());
            assert(e == trailing((d.len() - p) as nat, ts.len()));
        }
    }
}

/// Headers that are accepted can be encoded: what the encoder refuses under
/// them is a row, for its bytes or for bytes left over, or a dictionary that
/// outgrows its indices, and never a type.
pub proof fn law_accepted_headers_encode(
    headers: Seq<(Seq<char>, Seq<char>)>,
    columns: Seq<SchemaView>,
    rows: Seq<Seq<u8>>,
    revision: u64,
)
    requires
        header_columns(headers) == Ok::<Seq<SchemaView>, ErrorView>(columns),
    ensures
        encoded(rows, columns, revision) matches Err(e) ==> blames_bytes(e) || e
            == dictionary_overflow() || exists|left: nat|
            e == #[trigger] trailing(left, columns.len()),
{
    lemma_headers_encodable(headers);
    let ts = column_tys(columns);
    lemma_rows_blame(rows, ts);
    if let Ok(cells) = each(rows, row_of(ts)) {
        lemma_block_blame(cells, columns, has_custom(revision));
    }
}

} // verus!
