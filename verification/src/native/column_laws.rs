//! Columns that the encoder does not write: points, aggregates and blocks
//! without rows.

use vstd::prelude::*;
use vstd::string::*;

use crate::error::ErrorView;
use crate::native::columns::{nesting, type_of, Ty};
use crate::native::decode::{
    announced_columns, announced_reader, announced_schema, block_at, empty_col, signed_column,
    Announced, MAX_BLOCK_COLUMNS,
};
use crate::native::decode_laws::{
    col_of, lemma_header_back, numbers, octets, raws, scalar_col, texts,
};
use crate::native::decoded::{BlockView, DecodedColumn};
use crate::native::encode::{
    col_bytes, column_header, declared_type, flat, has_custom, null_flags, prefixes, SchemaView,
};
use crate::native::io::{claim, lemma_stands_split, many, stands_at, WireView, MAX_STRING_SIZE};
use crate::native::laws::{
    affords, lemma_fixed_back, lemma_nested, lemma_prefixes_back, lemma_read_back, offsets_of,
    plain, written_as,
};
use crate::native::reader::{body_at, column_at, nested_reader, point_cells, zipped, Cells};
use crate::native::values::{
    all_fit, cell, cells, fits, key_vals, lemma_all_fit, lemma_cells, lemma_total_len, lists_of,
    pairs_of, slot_vals, total, value_vals, Val,
};

verus! {

/// A column of points, all first coordinates and then all second ones, reads as
/// the pair of coordinates of every row.
pub proof fn law_points_keep_their_pairs(w: WireView, pos: int, xs: Seq<Val>, ys: Seq<Val>)
    requires
        0 < xs.len() == ys.len() <= usize::MAX,
        all_fit(xs, Ty::Float64),
        all_fit(ys, Ty::Float64),
        stands_at(w.bytes, pos, flat(cells(xs)) + flat(cells(ys))),
        claim::<Vec<u8>>(xs.len(), w.budget) is Ok,
    ensures
        column_at(w, pos, Ty::Point, xs.len() as u64) == Ok::<(Cells, int), ErrorView>(
            (
                Seq::new(xs.len(), |i: int| xs[i]->Raw_0 + ys[i]->Raw_0),
                pos + flat(cells(xs)).len() + flat(cells(ys)).len(),
            ),
        ),
{
    let n = xs.len();
    lemma_all_fit(xs, Ty::Float64);
    lemma_all_fit(ys, Ty::Float64);
    assert forall|i: int| 0 <= i < n implies (#[trigger] xs[i]) is Raw && xs[i]->Raw_0.len()
        == 8 by {
        assert(fits(xs[i], Ty::Float64));
    }
    assert forall|i: int| 0 <= i < n implies (#[trigger] ys[i]) is Raw && ys[i]->Raw_0.len()
        == 8 by {
        assert(fits(ys[i], Ty::Float64));
    }
    lemma_stands_split(w.bytes, pos, flat(cells(xs)), flat(cells(ys)));
    lemma_fixed_back(w.bytes, pos, xs, 8);
    lemma_fixed_back(w.bytes, pos + flat(cells(xs)).len(), ys, 8);
    lemma_cells(xs);
    lemma_cells(ys);
    let pairs = Seq::new(n, |i: int| xs[i]->Raw_0 + ys[i]->Raw_0);
    assert forall|i: int| 0 <= i < n implies #[trigger] pairs[i] == cells(xs)[i] + cells(
        ys,
    )[i] by {
        assert(cells(xs)[i] == cell(xs[i]));
        assert(cells(ys)[i] == cell(ys[i]));
    }
    assert(zipped(cells(xs), cells(ys), n) =~= pairs);
    assert(body_at(nested_reader(w, 1), w, pos, Ty::Point, n as u64) == point_cells(w, pos, n)) by {
        reveal(body_at);
    }
}

/// A column of a simple aggregate reads as the column of the type that it
/// aggregates.
pub proof fn law_aggregates_read_as_their_values(
    w: WireView,
    pos: int,
    vals: Seq<Val>,
    x: Ty,
    b: Seq<u8>,
)
    requires
        plain(x),
        nesting(x) <= 31,
        vals.len() > 0,
        all_fit(vals, x),
        col_bytes(cells(vals), x) == Ok::<Seq<u8>, ErrorView>(b),
        stands_at(w.bytes, pos, prefixes(x) + b),
        total(vals) + nesting(x) <= usize::MAX,
        affords(w, total(vals) + nesting(x)),
    ensures
        column_at(
            w,
            pos,
            Ty::SimpleAggregateFunction(Box::new(x)),
            vals.len() as u64,
        ) == Ok::<(Cells, int), ErrorView>((cells(vals), pos + prefixes(x).len() + b.len())),
{
    let t = Ty::SimpleAggregateFunction(Box::new(x));
    let n = vals.len() as u64;
    lemma_total_len(vals);
    lemma_stands_split(w.bytes, pos, prefixes(x), b);
    lemma_prefixes_back(w, pos, x, 1);
    assert(written_as(vals, x, b)) by {
        reveal(written_as);
    }
    let p = pos + prefixes(x).len();
    lemma_read_back(w, p, vals, x, 1, total(vals) + nesting(x), b);
    lemma_nested(w, p, vals, x, 1, b.len());
    assert(body_at(nested_reader(w, 1), w, p, t, n) == nested_reader(w, 1)(p, x, n)) by {
        reveal(body_at);
    }
}

/// Whether a type is made of arrays, maps and nullable values of scalars.
pub open spec fn is_simple(t: Ty) -> bool
    decreases t,
{
    match t {
        Ty::Nullable(x) => is_simple(*x),
        Ty::Array(x) => is_simple(*x),
        Ty::Mapping(k, v) => is_simple(*k) && is_simple(*v),
        Ty::Tuple(_) => false,
        Ty::LowCardinality(_) => false,
        Ty::SimpleAggregateFunction(_) => false,
        Ty::NewJson => false,
        Ty::Variant(_) => false,
        Ty::Dynamic => false,
        _ => true,
    }
}

/// The column of a block without rows is the column of no values.
pub proof fn law_empty_columns_hold_nothing(t: Ty)
    requires
        is_simple(t),
    ensures
        empty_col(t) == col_of(seq![], t),
    decreases t,
{
    let none: Seq<Val> = seq![];
    match t {
        Ty::Nullable(x) => {
            law_empty_columns_hold_nothing(*x);
            lemma_cells(none);
            assert(slot_vals(none, *x) =~= none);
            assert(null_flags(cells(none)) =~= seq![]);
        },
        Ty::Array(x) => {
            law_empty_columns_hold_nothing(*x);
            assert(lists_of(none) =~= seq![]);
            assert(flat(lists_of(none)) =~= none);
            assert(offsets_of(lists_of(none)) =~= seq![]);
        },
        Ty::Mapping(k, v) => {
            law_empty_columns_hold_nothing(*k);
            law_empty_columns_hold_nothing(*v);
            let pairs = pairs_of(none);
            assert(pairs =~= seq![]);
            assert(flat(pairs) =~= seq![]);
            assert(key_vals(flat(pairs)) =~= none);
            assert(value_vals(flat(pairs)) =~= none);
            assert(offsets_of(pairs) =~= seq![]);
        },
        _ => {
            reveal(scalar_col);
            lemma_cells(none);
            assert(flat(cells(none)) =~= seq![]);
            lemma_empty_scalar(t);
        },
    }
}

proof fn lemma_empty_scalar(t: Ty)
    requires
        is_simple(t),
        !(t is Nullable || t is Array || t is Mapping),
    ensures
        empty_col(t) == scalar_col(seq![], t),
{
    reveal(scalar_col);
    let none: Seq<Val> = seq![];
    lemma_cells(none);
    assert(flat(cells(none)) =~= seq![]);
    assert(octets(none) =~= seq![]);
    assert(raws(none) =~= seq![]);
    assert(texts(none) =~= seq![]);
    assert(signed_column(seq![]) =~= seq![]);
    assert(numbers::<u16>(none) =~= seq![]);
    assert(numbers::<u32>(none) =~= seq![]);
    assert(numbers::<u64>(none) =~= seq![]);
    assert(numbers::<u128>(none) =~= seq![]);
    assert(numbers::<i16>(none) =~= seq![]);
    assert(numbers::<i32>(none) =~= seq![]);
    assert(numbers::<i64>(none) =~= seq![]);
    assert(numbers::<i128>(none) =~= seq![]);
}

/// What headers announce without rows.
pub open spec fn announced_empty(columns: Seq<SchemaView>) -> Seq<Announced> {
    columns.map_values(|c: SchemaView| ((c.name, declared_type(c)), empty_col(c.ty)))
}

/// The headers of columns, one behind the other.
pub open spec fn header_bytes(columns: Seq<SchemaView>, custom: bool) -> Seq<u8>
    decreases columns.len(),
{
    if columns.len() == 0 {
        seq![]
    } else {
        header_bytes(columns.drop_last(), custom) + column_header(columns.last(), custom)
    }
}

/// Whether the header of a column reads back.
pub open spec fn is_declared(c: SchemaView) -> bool {
    &&& type_of(declared_type(c)) == Some(c.ty)
    &&& vstd::utf8::encode_utf8(c.name).len() <= MAX_STRING_SIZE
    &&& vstd::utf8::encode_utf8(declared_type(c)).len() <= MAX_STRING_SIZE
}

proof fn lemma_headers_read(w: WireView, pos: int, columns: Seq<SchemaView>, custom: bool)
    requires
        forall|k: int| 0 <= k < columns.len() ==> is_declared(#[trigger] columns[k]),
        stands_at(w.bytes, pos, header_bytes(columns, custom)),
    ensures
        many(announced_reader(w, 0, custom), pos, columns.len()) == Ok::<
            (Seq<Announced>, int),
            ErrorView,
        >((announced_empty(columns), pos + header_bytes(columns, custom).len())),
    decreases columns.len(),
{
    let all = announced_empty(columns);
    if columns.len() > 0 {
        let n = columns.len() - 1;
        let before = columns.drop_last();
        let head = header_bytes(before, custom);
        assert forall|k: int| 0 <= k < before.len() implies is_declared(#[trigger] before[k]) by {
            assert(is_declared(columns[k]));
        }
        lemma_stands_split(w.bytes, pos, head, column_header(columns.last(), custom));
        lemma_headers_read(w, pos, before, custom);
        assert(is_declared(columns[n]));
        lemma_header_back(w, pos + head.len(), columns[n], custom);
        assert(announced_reader(w, 0, custom)(pos + head.len()) == Ok::<
            (Announced, int),
            ErrorView,
        >((all[n], pos + header_bytes(columns, custom).len())));
        assert(announced_empty(before).push(all[n]) =~= all);
    } else {
        assert(all =~= seq![]);
    }
}

/// A block without rows declares its columns, under their names and types and in
/// their order, and carries nothing else: its columns are empty.
pub proof fn law_a_header_block_declares_its_columns(
    w: WireView,
    pos: int,
    columns: Seq<SchemaView>,
    revision: u64,
)
    requires
        columns.len() <= MAX_BLOCK_COLUMNS,
        forall|k: int| 0 <= k < columns.len() ==> is_declared(#[trigger] columns[k]),
        stands_at(w.bytes, pos, header_bytes(columns, has_custom(revision))),
        claim::<(String, String)>(columns.len(), w.budget) is Ok,
        claim::<DecodedColumn>(columns.len(), w.budget) is Ok,
    ensures
        block_at(w, pos, columns.len() as u64, 0, revision) == Ok::<(BlockView, int), ErrorView>(
            (
                BlockView {
                    columns: columns.map_values(|c: SchemaView| empty_col(c.ty)),
                    schema: columns.map_values(|c: SchemaView| (c.name, declared_type(c))),
                    num_rows: 0,
                },
                pos + header_bytes(columns, has_custom(revision)).len(),
            ),
        ),
{
    let all = announced_empty(columns);
    lemma_headers_read(w, pos, columns, has_custom(revision));
    assert(announced_columns(all) =~= columns.map_values(|c: SchemaView| empty_col(c.ty)));
    assert(announced_schema(all) =~= columns.map_values(
        |c: SchemaView| (c.name, declared_type(c)),
    ));
}

} // verus!
