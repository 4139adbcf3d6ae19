//! Typed columns written as `RowBinary` again, row by row.

use vstd::prelude::*;

use crate::error::ErrorView;
use crate::native::canonical::{all_solid, solid};
use crate::native::columns::{deepest, fixed_size, nesting, Ty};
use crate::native::decode::tuple_col;
use crate::native::decode_laws::{all_wide, col_of, field_cols, index_col, scalar_col, wide};
use crate::native::decoded::Col;
use crate::native::encode::{dict_type, flat, index_width, null_flags};
use crate::native::io::{
    law_le_bytes_back, le_bytes, le_nat, lemma_le_nat_bound, lemma_pow256, pattern, pow256, string,
    twos, var_uint,
};
use crate::native::laws::{
    all_plain, fields_written_as, is_lc_form, lemma_array_layout, lemma_array_written,
    lemma_flat_grows, lemma_last_field_written, lemma_low_cardinality_written, lemma_map_layout,
    lemma_map_written, lemma_nullable_layout, lemma_nullable_written, lemma_tuple_layout,
    lemma_tuple_written, offsets_of, plain, rows_fit, written_as, LowCardinalityForm,
};
use crate::native::reader::lc_cell;
use crate::native::values::{
    all_fit, cell, cells, entry_cells, field_vals, fits, key_vals, lemma_all_fit, lemma_cells,
    lemma_flat_push, lemma_total_len, lists_of, pairs_of, slot_vals, total, value_vals, Val,
};

verus! {

/// The `width` bytes of a number.
pub open spec fn number_cell(n: int, width: nat) -> Seq<u8> {
    le_bytes(pattern(n, width), width)
}

/// The index that stands at row `r` of a column of indices.
pub open spec fn index_at(c: Col, r: int) -> nat {
    match c {
        Col::UInt8(v) => v[r] as nat,
        Col::UInt16(v) => v[r] as nat,
        Col::UInt32(v) => v[r] as nat,
        Col::UInt64(v) => v[r] as nat,
        _ => 0,
    }
}

/// Where the items of row `r` start.
pub open spec fn start_of(offsets: Seq<u64>, r: int) -> int {
    if r <= 0 {
        0
    } else {
        offsets[r - 1] as int
    }
}

/// Row `r` of a typed column in `RowBinary` form. A column without a typed form
/// has none.
pub open spec fn row_cell(c: Col, r: int) -> Seq<u8>
    decreases c, 1nat, 0nat,
{
    match c {
        Col::UInt8(v) => number_cell(v[r] as int, 1),
        Col::UInt16(v) => number_cell(v[r] as int, 2),
        Col::UInt32(v) => number_cell(v[r] as int, 4),
        Col::UInt64(v) => number_cell(v[r] as int, 8),
        Col::UInt128(v) => number_cell(v[r] as int, 16),
        Col::Int8(v) => number_cell(v[r] as int, 1),
        Col::Int16(v) => number_cell(v[r] as int, 2),
        Col::Int32(v) => number_cell(v[r] as int, 4),
        Col::Int64(v) => number_cell(v[r] as int, 8),
        Col::Int128(v) => number_cell(v[r] as int, 16),
        Col::Int256(v) => v[r],
        Col::UInt256(v) => v[r],
        Col::Float32(v) => number_cell(v[r] as int, 4),
        Col::Float64(v) => number_cell(v[r] as int, 8),
        Col::Decimal32 { values, .. } => number_cell(values[r] as int, 4),
        Col::Decimal64 { values, .. } => number_cell(values[r] as int, 8),
        Col::Decimal128 { values, .. } => number_cell(values[r] as int, 16),
        Col::Decimal256 { values, .. } => values[r],
        Col::String(v) => string(v[r]),
        Col::Json(v) => string(v[r]),
        Col::FixedString { width, bytes } => bytes.subrange(r * width, r * width + width),
        Col::Date(v) => number_cell(v[r] as int, 2),
        Col::Date32(v) => number_cell(v[r] as int, 4),
        Col::DateTime(v) => number_cell(v[r] as int, 4),
        Col::DateTime64 { values, .. } => number_cell(values[r] as int, 8),
        Col::Uuid(v) => v[r],
        Col::Ipv4(v) => number_cell(v[r] as int, 4),
        Col::Ipv6(v) => v[r],
        Col::Nullable { mask, child } => if mask[r] == 0 {
            seq![0u8] + row_cell(*child, r)
        } else {
            seq![mask[r]]
        },
        Col::Array { offsets, child } => {
            let from = start_of(offsets, r);
            let n = (offsets[r] - from) as nat;
            var_uint(n) + item_cells(*child, from, n)
        },
        Col::Mapping { offsets, keys, values } => {
            let from = start_of(offsets, r);
            let n = (offsets[r] - from) as nat;
            var_uint(n) + member_cells(c, from, n)
        },
        Col::Tuple(fields) => fields_cell(fields, r),
        Col::LowCardinality { dict, indices, is_nullable_inner } => {
            let i = index_at(*indices, r);
            if !is_nullable_inner {
                row_cell(*dict, i as int)
            } else if i == 0 {
                seq![1u8]
            } else {
                seq![0u8] + row_cell(*dict, i as int)
            }
        },
        Col::Unsupported(_) => seq![],
    }
}

/// The `n` rows of a column from row `from` on, one behind the other.
pub open spec fn item_cells(c: Col, from: int, n: nat) -> Seq<u8>
    decreases c, 2nat, n,
{
    if n == 0 {
        seq![]
    } else {
        item_cells(c, from, (n - 1) as nat) + row_cell(c, from + n - 1)
    }
}

/// The `n` entries of a map column from entry `from` on, key before value.
pub open spec fn member_cells(c: Col, from: int, n: nat) -> Seq<u8>
    decreases c, 0nat, n,
{
    match c {
        Col::Mapping { keys, values, .. } => if n == 0 {
            seq![]
        } else {
            member_cells(c, from, (n - 1) as nat) + (row_cell(*keys, from + n - 1) + row_cell(
                *values,
                from + n - 1,
            ))
        },
        _ => seq![],
    }
}

/// Row `r` of the fields of a tuple, one behind the other.
pub open spec fn fields_cell(fields: Seq<Col>, r: int) -> Seq<u8>
    decreases fields, 0nat, 0nat,
{
    if fields.len() == 0 {
        seq![]
    } else {
        fields_cell(fields.subrange(0, fields.len() - 1), r) + row_cell(
            fields[fields.len() - 1],
            r,
        )
    }
}

/// Every row of the typed column of values is the form of its value.
#[verifier::opaque]
pub open spec fn rewrites(c: Col, vals: Seq<Val>) -> bool {
    forall|r: int| 0 <= r < vals.len() ==> #[trigger] row_cell(c, r) == cell(vals[r])
}

/// The bytes of a number are those it was read from.
proof fn lemma_number_back(b: Seq<u8>, width: nat)
    requires
        b.len() == width,
        width == 1 || width == 2 || width == 4 || width == 8 || width == 16,
    ensures
        le_nat(b) < pow256(width),
        number_cell(le_nat(b) as int, width) == b,
        number_cell(twos(le_nat(b), width), width) == b,
        -pow256(width) <= 2 * twos(le_nat(b), width) < pow256(width),
        width == 1 ==> le_nat(b) == b[0],
{
    lemma_pow256();
    lemma_le_nat_bound(b);
    law_le_bytes_back(b);
    if width == 1 {
        assert(le_nat(b.drop_first()) == 0);
    }
}

/// Strings of one width are cut out of their bytes.
proof fn lemma_fixed_slice(vals: Seq<Val>, width: nat, r: int)
    requires
        0 <= r < vals.len(),
        forall|i: int|
            0 <= i < vals.len() ==> (#[trigger] vals[i]) is Raw && vals[i]->Raw_0.len() == width,
    ensures
        flat(cells(vals)).len() == vals.len() * width,
        r * width + width <= flat(cells(vals)).len(),
        flat(cells(vals)).subrange(r * width, r * width + width) == vals[r]->Raw_0,
    decreases vals.len(),
{
    let n = vals.len() - 1;
    let before = vals.subrange(0, n);
    let last = vals[n];
    lemma_flat_push(cells(before), cell(last));
    let all = flat(cells(vals));
    let rest = flat(cells(before));
    assert(last is Raw);
    assert forall|i: int| 0 <= i < before.len() implies (#[trigger] before[i]) is Raw
        && before[i]->Raw_0.len() == width by {
        assert(vals[i] is Raw);
    }
    if n > 0 {
        lemma_fixed_slice(
            before,
            width,
            if r < n {
                r
            } else {
                0
            },
        );
    } else {
        assert(before =~= seq![]);
        assert(rest.len() == 0);
        assert(0 * width == 0);
    }
    assert(n * width + width == vals.len() * width) by (nonlinear_arith)
        requires
            n + 1 == vals.len(),
    ;
    if r < n {
        assert(rest.subrange(r * width, r * width + width) =~= all.subrange(
            r * width,
            r * width + width,
        ));
    } else {
        assert(r == n);
        assert(all.subrange(r * width, r * width + width) =~= cell(last));
    }
    assert(r * width + width <= vals.len() * width) by (nonlinear_arith)
        requires
            r + 1 <= vals.len(),
    ;
}

#[verifier::rlimit(40)]
proof fn lemma_scalar_row(vals: Seq<Val>, t: Ty, r: int)
    requires
        fixed_size(t) is Some || t is String || t is Json,
        solid(t),
        all_fit(vals, t),
        0 <= r < vals.len(),
    ensures
        row_cell(scalar_col(vals, t), r) == cell(vals[r]),
{
    reveal(scalar_col);
    lemma_pow256();
    lemma_all_fit(vals, t);
    assert(fits(vals[r], t));
    if let Some(size) = fixed_size(t) {
        let b = vals[r]->Raw_0;
        if size == 1 || size == 2 || size == 4 || size == 8 || size == 16 {
            if !(t is FixedString) {
                lemma_number_back(b, size as nat);
            }
        }
        if let Ty::FixedString(width) = t {
            assert forall|i: int| 0 <= i < vals.len() implies (#[trigger] vals[i]) is Raw
                && vals[i]->Raw_0.len() == width by {
                assert(fits(vals[i], t));
            }
            lemma_fixed_slice(vals, width as nat, r);
        }
    }
}

proof fn lemma_scalar_rewrites(vals: Seq<Val>, t: Ty)
    requires
        fixed_size(t) is Some || t is String || t is Json,
        solid(t),
        all_fit(vals, t),
    ensures
        rewrites(col_of(vals, t), vals),
{
    reveal(rewrites);
    assert(col_of(vals, t) == scalar_col(vals, t));
    assert forall|r: int| 0 <= r < vals.len() implies #[trigger] row_cell(col_of(vals, t), r)
        == cell(vals[r]) by {
        lemma_scalar_row(vals, t, r);
    }
}

proof fn lemma_nullable_rewrites(vals: Seq<Val>, x: Ty)
    requires
        all_fit(vals, Ty::Nullable(Box::new(x))),
        rewrites(col_of(slot_vals(vals, x), x), slot_vals(vals, x)),
    ensures
        rewrites(col_of(vals, Ty::Nullable(Box::new(x))), vals),
{
    reveal(rewrites);
    let t = Ty::Nullable(Box::new(x));
    lemma_nullable_layout(vals, x);
    lemma_all_fit(vals, t);
    let c = col_of(vals, t);
    let slots = slot_vals(vals, x);
    let child = col_of(slots, x);
    assert(c == Col::Nullable { mask: null_flags(cells(vals)), child: Box::new(child) });
    assert forall|r: int| 0 <= r < vals.len() implies #[trigger] row_cell(c, r) == cell(
        vals[r],
    ) by {
        assert(fits(vals[r], t));
        assert(row_cell(child, r) == cell(slots[r]));
        assert(null_flags(cells(vals))[r] == if vals[r] is Absent {
            1u8
        } else {
            0u8
        });
    }
}

/// An item of joined lists is the item of its list.
proof fn lemma_flat_item<T>(lists: Seq<Seq<T>>, r: int, j: int)
    requires
        0 <= r < lists.len(),
        0 <= j < lists[r].len(),
    ensures
        flat(lists.take(r)).len() + j < flat(lists).len(),
        flat(lists)[flat(lists.take(r)).len() + j] == lists[r][j],
    decreases lists.len(),
{
    let before = lists.drop_last();
    if r < lists.len() - 1 {
        assert(before.take(r) =~= lists.take(r));
        lemma_flat_item(before, r, j);
    } else {
        assert(before =~= lists.take(r));
    }
}

/// Where the lists of a row start and end among all.
proof fn lemma_offset_bounds<T>(lists: Seq<Seq<T>>, r: int)
    requires
        0 <= r < lists.len(),
        flat(lists).len() <= u64::MAX,
    ensures
        start_of(offsets_of(lists), r) == flat(lists.take(r)).len(),
        offsets_of(lists)[r] == flat(lists.take(r)).len() + lists[r].len(),
{
    lemma_flat_grows(lists, r, lists.len() as int);
    lemma_flat_grows(lists, r + 1, lists.len() as int);
    assert(lists.take(lists.len() as int) =~= lists);
    assert(lists.take(r + 1).drop_last() =~= lists.take(r));
    assert(lists.take(r + 1).last() == lists[r]);
    if r == 0 {
        assert(lists.take(0) =~= seq![]);
        assert(flat(lists.take(0)).len() == 0);
    } else {
        assert(offsets_of(lists)[r - 1] == flat(lists.take(r)).len() as u64);
    }
}

proof fn lemma_item_cells(c: Col, all: Seq<Val>, lists: Seq<Seq<Val>>, r: int, n: nat)
    requires
        rewrites(c, all),
        all == flat(lists),
        0 <= r < lists.len(),
        n <= lists[r].len(),
    ensures
        item_cells(c, flat(lists.take(r)).len() as int, n) == flat(cells(lists[r].take(n as int))),
    decreases n,
{
    let items = lists[r];
    let from = flat(lists.take(r)).len() as int;
    if n > 0 {
        lemma_item_cells(c, all, lists, r, (n - 1) as nat);
        lemma_flat_item(lists, r, n - 1);
        let part = items.take(n as int);
        assert(part.subrange(0, part.len() - 1) =~= items.take(n - 1));
        lemma_flat_push(cells(items.take(n - 1)), cell(items[n - 1]));
        assert(row_cell(c, from + n - 1) == cell(all[from + n - 1])) by {
            reveal(rewrites);
        }
    } else {
        assert(items.take(0) =~= seq![]);
    }
}

proof fn lemma_array_rewrites(vals: Seq<Val>, x: Ty)
    requires
        all_fit(vals, Ty::Array(Box::new(x))),
        total(vals) <= usize::MAX,
        rewrites(col_of(flat(lists_of(vals)), x), flat(lists_of(vals))),
    ensures
        rewrites(col_of(vals, Ty::Array(Box::new(x))), vals),
{
    let t = Ty::Array(Box::new(x));
    let lists = lists_of(vals);
    let all = flat(lists);
    lemma_array_layout(vals, x);
    lemma_total_len(all);
    lemma_all_fit(vals, t);
    let c = col_of(vals, t);
    let child = col_of(all, x);
    assert(c == Col::Array { offsets: offsets_of(lists), child: Box::new(child) });
    assert forall|r: int| 0 <= r < vals.len() implies #[trigger] row_cell(c, r) == cell(
        vals[r],
    ) by {
        assert(fits(vals[r], t));
        let n = lists[r].len();
        lemma_offset_bounds(lists, r);
        lemma_item_cells(child, all, lists, r, n);
        assert(lists[r].take(n as int) =~= vals[r]->List_0);
    }
    reveal(rewrites);
}

proof fn lemma_member_cells(c: Col, keys: Col, values: Col, lists: Seq<Seq<(Val, Val)>>, r: int, n: nat)
    requires
        c matches Col::Mapping { keys: k, values: v, .. } && *k == keys && *v == values,
        rewrites(keys, key_vals(flat(lists))),
        rewrites(values, value_vals(flat(lists))),
        0 <= r < lists.len(),
        n <= lists[r].len(),
    ensures
        member_cells(c, flat(lists.take(r)).len() as int, n) == flat(
            entry_cells(lists[r].take(n as int)),
        ),
    decreases n,
{
    let items = lists[r];
    let from = flat(lists.take(r)).len() as int;
    if n > 0 {
        lemma_member_cells(c, keys, values, lists, r, (n - 1) as nat);
        lemma_flat_item(lists, r, n - 1);
        let part = items.take(n as int);
        let (k, v) = items[n - 1];
        assert(part.subrange(0, part.len() - 1) =~= items.take(n - 1));
        lemma_flat_push(entry_cells(items.take(n - 1)), cell(k) + cell(v));
        assert(row_cell(keys, from + n - 1) == cell(k)) by {
            reveal(rewrites);
            assert(key_vals(flat(lists))[from + n - 1] == k);
        }
        assert(row_cell(values, from + n - 1) == cell(v)) by {
            reveal(rewrites);
            assert(value_vals(flat(lists))[from + n - 1] == v);
        }
    } else {
        assert(items.take(0) =~= seq![]);
    }
}

proof fn lemma_map_rewrites(vals: Seq<Val>, k: Ty, v: Ty)
    requires
        all_fit(vals, Ty::Mapping(Box::new(k), Box::new(v))),
        total(vals) <= usize::MAX,
        rewrites(col_of(key_vals(flat(pairs_of(vals))), k), key_vals(flat(pairs_of(vals)))),
        rewrites(col_of(value_vals(flat(pairs_of(vals))), v), value_vals(flat(pairs_of(vals)))),
    ensures
        rewrites(col_of(vals, Ty::Mapping(Box::new(k), Box::new(v))), vals),
{
    let t = Ty::Mapping(Box::new(k), Box::new(v));
    let lists = pairs_of(vals);
    let all = flat(lists);
    lemma_map_layout(vals, k, v);
    lemma_total_len(key_vals(all));
    lemma_all_fit(vals, t);
    let c = col_of(vals, t);
    let keys = col_of(key_vals(all), k);
    let values = col_of(value_vals(all), v);
    assert(c == Col::Mapping {
        offsets: offsets_of(lists),
        keys: Box::new(keys),
        values: Box::new(values),
    });
    assert forall|r: int| 0 <= r < vals.len() implies #[trigger] row_cell(c, r) == cell(
        vals[r],
    ) by {
        assert(fits(vals[r], t));
        let n = lists[r].len();
        lemma_offset_bounds(lists, r);
        lemma_member_cells(c, keys, values, lists, r, n);
        assert(lists[r].take(n as int) =~= vals[r]->Pairs_0);
    }
    reveal(rewrites);
}

proof fn lemma_low_cardinality_rewrites(
    vals: Seq<Val>,
    x: Ty,
    b: Seq<u8>,
    f: LowCardinalityForm,
)
    requires
        is_lc_form(f, vals, x, b),
        rewrites(col_of(f.dict_vals, dict_type(x)), f.dict_vals),
    ensures
        rewrites(col_of(vals, Ty::LowCardinality(Box::new(x))), vals),
{
    reveal(rewrites);
    lemma_pow256();
    lemma_cells(f.dict_vals);
    let c = col_of(vals, Ty::LowCardinality(Box::new(x)));
    let dict = col_of(f.dict_vals, dict_type(x));
    let places = index_col(f.indices, f.dict_vals.len());
    assert(c == Col::LowCardinality {
        dict: Box::new(dict),
        indices: Box::new(places),
        is_nullable_inner: x is Nullable,
    });
    assert forall|r: int| 0 <= r < vals.len() implies #[trigger] row_cell(c, r) == cell(
        vals[r],
    ) by {
        let i = f.indices[r];
        assert(i < pow256(index_width(f.dict.len())));
        assert(index_at(places, r) == i);
        assert(lc_cell(f.dict, i, x is Nullable) == Ok::<Seq<u8>, ErrorView>(cell(vals[r])));
        if !(x is Nullable && i == 0) {
            assert(f.dict[i as int] == cell(f.dict_vals[i as int]));
            assert(row_cell(dict, i as int) == cell(f.dict_vals[i as int]));
        }
    }
}

/// A column of a solid type has a typed form.
#[verifier::rlimit(40)]
proof fn lemma_solid_col(vals: Seq<Val>, t: Ty)
    requires
        solid(t),
    ensures
        !(col_of(vals, t) is Unsupported),
    decreases t,
{
    match t {
        Ty::Tuple(ts) => {
            let n = ts.len() - 1;
            let fields = field_cols(vals, ts);
            lemma_field_cols_len(vals, ts);
            assert(all_solid(ts));
            assert(solid(ts[n as int]));
            lemma_solid_col(field_vals(vals, n as int), ts[n as int]);
            assert(fields[n as int] == col_of(field_vals(vals, n as int), ts[n as int]));
            assert(!(fields[n as int] is Unsupported));
        },
        Ty::Nullable(_) => {},
        Ty::Array(_) => {},
        Ty::Mapping(_, _) => {},
        Ty::LowCardinality(_) => {},
        _ => {
            reveal(scalar_col);
        },
    }
}

proof fn lemma_field_cols_len(vals: Seq<Val>, ts: Seq<Ty>)
    ensures
        field_cols(vals, ts).len() == ts.len(),
    decreases ts.len(),
{
    if ts.len() > 0 {
        lemma_field_cols_len(vals, ts.subrange(0, ts.len() - 1));
    }
}

/// The fields of a row, one behind the other, are the form of the row.
#[verifier::opaque]
pub open spec fn fields_rewrite(fields: Seq<Col>, vals: Seq<Val>) -> bool {
    forall|r: int|
        0 <= r < vals.len() ==> #[trigger] fields_cell(fields, r) == flat(
            cells(vals[r]->Fields_0.take(fields.len() as int)),
        )
}

pub proof fn lemma_push_field_rewrites(vals: Seq<Val>, ts: Seq<Ty>)
    requires
        ts.len() > 0,
        rows_fit(vals, ts),
        fields_rewrite(field_cols(vals, ts.subrange(0, ts.len() - 1)), vals),
        rewrites(
            col_of(field_vals(vals, ts.len() - 1), ts[ts.len() - 1]),
            field_vals(vals, ts.len() - 1),
        ),
    ensures
        fields_rewrite(field_cols(vals, ts), vals),
{
    reveal(fields_rewrite);
    reveal(rewrites);
    let n = ts.len() - 1;
    let before = field_cols(vals, ts.subrange(0, n));
    let fields = field_cols(vals, ts);
    let col = col_of(field_vals(vals, n), ts[n]);
    lemma_field_cols_len(vals, ts);
    assert(fields.subrange(0, fields.len() - 1) =~= before);
    assert forall|r: int| 0 <= r < vals.len() implies #[trigger] fields_cell(fields, r) == flat(
        cells(vals[r]->Fields_0.take(fields.len() as int)),
    ) by {
        assert(vals[r] is Fields);
        let all = vals[r]->Fields_0.take(n + 1);
        assert(fields_cell(before, r) == flat(cells(vals[r]->Fields_0.take(n))));
        assert(row_cell(col, r) == cell(field_vals(vals, n)[r]));
        assert(all.subrange(0, all.len() - 1) =~= vals[r]->Fields_0.take(n));
        lemma_flat_push(cells(vals[r]->Fields_0.take(n)), cell(all[n]));
    }
}

proof fn lemma_fields_rewrite(vals: Seq<Val>, ts: Seq<Ty>, b: Seq<u8>, m: nat)
    requires
        all_solid(ts),
        rows_fit(vals, ts),
        fields_written_as(vals, ts, b),
        total(vals) + deepest(ts) <= m <= usize::MAX,
    ensures
        fields_rewrite(field_cols(vals, ts), vals),
    decreases ts, 0nat,
{
    if ts.len() > 0 {
        let n = ts.len() - 1;
        let (b1, b2) = lemma_last_field_written(vals, ts, b);
        lemma_fields_rewrite(vals, ts.subrange(0, n), b1, m);
        lemma_rewrites(field_vals(vals, n as int), ts[n as int], b2, m);
        lemma_push_field_rewrites(vals, ts);
    } else {
        reveal(fields_rewrite);
        assert forall|r: int| 0 <= r < vals.len() implies #[trigger] fields_cell(
            field_cols(vals, ts),
            r,
        ) == flat(cells(vals[r]->Fields_0.take(field_cols(vals, ts).len() as int))) by {
            assert(vals[r]->Fields_0.take(0) =~= seq![]);
        }
    }
}

proof fn lemma_tuple_rewrites(vals: Seq<Val>, ts: Seq<Ty>)
    requires
        solid(Ty::Tuple(ts)),
        all_fit(vals, Ty::Tuple(ts)),
        fields_rewrite(field_cols(vals, ts), vals),
    ensures
        rewrites(col_of(vals, Ty::Tuple(ts)), vals),
{
    reveal(fields_rewrite);
    reveal(rewrites);
    let t = Ty::Tuple(ts);
    let fields = field_cols(vals, ts);
    lemma_field_cols_len(vals, ts);
    lemma_solid_col(vals, t);
    lemma_tuple_layout(vals, ts);
    assert(col_of(vals, t) == tuple_col(fields, t));
    let c = Col::Tuple(fields);
    assert(col_of(vals, t) == c);
    assert forall|r: int| 0 <= r < vals.len() implies #[trigger] row_cell(c, r) == cell(
        vals[r],
    ) by {
        assert(vals[r] is Fields);
        assert(row_cell(c, r) == fields_cell(fields, r));
        assert(vals[r]->Fields_0.take(fields.len() as int) =~= vals[r]->Fields_0);
    }
}

/// The typed column of values holds all there is to the values: every row of it
/// is written as the form of its value.
#[verifier::rlimit(40)]
pub proof fn lemma_rewrites(vals: Seq<Val>, t: Ty, b: Seq<u8>, m: nat)
    requires
        solid(t),
        all_fit(vals, t),
        written_as(vals, t, b),
        total(vals) + nesting(t) <= m <= usize::MAX,
    ensures
        rewrites(col_of(vals, t), vals),
    decreases t, 1nat,
{
    if fixed_size(t) is Some || t is String || t is Json {
        lemma_scalar_rewrites(vals, t);
    } else {
        match t {
            Ty::Nullable(x) => {
                let b2 = lemma_nullable_written(vals, *x, b);
                lemma_nullable_layout(vals, *x);
                lemma_rewrites(slot_vals(vals, *x), *x, b2, m);
                lemma_nullable_rewrites(vals, *x);
            },
            Ty::Array(x) => {
                let b2 = lemma_array_written(vals, *x, b);
                lemma_array_layout(vals, *x);
                lemma_rewrites(flat(lists_of(vals)), *x, b2, m);
                lemma_array_rewrites(vals, *x);
            },
            Ty::Mapping(k, v) => {
                let (b1, b2) = lemma_map_written(vals, *k, *v, b);
                lemma_map_layout(vals, *k, *v);
                let all = flat(pairs_of(vals));
                lemma_rewrites(key_vals(all), *k, b1, m);
                lemma_rewrites(value_vals(all), *v, b2, m);
                lemma_map_rewrites(vals, *k, *v);
            },
            Ty::Tuple(ts) => {
                lemma_tuple_written(vals, ts, b);
                lemma_tuple_layout(vals, ts);
                lemma_fields_rewrite(vals, ts, b, m);
                lemma_tuple_rewrites(vals, ts);
            },
            Ty::LowCardinality(x) => {
                lemma_solid_plain(t);
                let f = lemma_low_cardinality_written(vals, *x, b);
                assert(nesting(dict_type(*x)) <= nesting(*x));
                assert(solid(*x));
                match *x {
                    Ty::Nullable(y) => {
                        lemma_rewrites(f.dict_vals, *y, f.keys, m);
                    },
                    _ => {
                        lemma_rewrites(f.dict_vals, *x, f.keys, m);
                    },
                }
                lemma_low_cardinality_rewrites(vals, *x, b, f);
            },
            _ => {},
        }
    }
}

/// Columns of a solid type come back as they were written.
pub proof fn lemma_solid_plain(t: Ty)
    requires
        solid(t),
    ensures
        plain(t),
        wide(t),
    decreases t,
{
    match t {
        Ty::Nullable(x) => {
            lemma_solid_plain(*x);
        },
        Ty::LowCardinality(x) => {
            assert(solid(*x));
            lemma_solid_plain(*x);
        },
        Ty::Array(x) => {
            lemma_solid_plain(*x);
        },
        Ty::Mapping(k, v) => {
            lemma_solid_plain(*k);
            lemma_solid_plain(*v);
        },
        Ty::Tuple(ts) => {
            lemma_all_solid_plain(ts);
        },
        _ => {},
    }
}

proof fn lemma_all_solid_plain(ts: Seq<Ty>)
    requires
        all_solid(ts),
    ensures
        all_plain(ts),
        all_wide(ts),
    decreases ts,
{
    if ts.len() > 0 {
        lemma_all_solid_plain(ts.subrange(0, ts.len() - 1));
        lemma_solid_plain(ts[ts.len() - 1]);
    }
}

} // verus!
