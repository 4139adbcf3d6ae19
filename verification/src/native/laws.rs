//! The laws that tie the encoder and the decoders together.

use vstd::prelude::*;

use crate::error::ErrorView;
use crate::native::columns::{deepest, fixed_size, nesting, Ty};
use crate::native::encode::{
    array_of, col_bytes, column, dict_type, each, field_prefixes, fields_bytes, first_dict, firsts,
    flat, index_bytes, index_code, index_width, lc_key, lc_keys, lc_scan, map_of, null_flags,
    null_values, offset_bytes, position, prefixes, seconds, some_empty, tuple_of,
    HAS_ADDITIONAL_KEYS,
};
use crate::native::io::{
    claim, law_le_round_trip, law_string_round_trip, le_bytes, lemma_le_bytes_len, lemma_pow256,
    lemma_stands_split, many, pow256, stands_at, u64_at, MAX_STRING_SIZE, WireView,
};
use crate::native::reader::{
    array_at, array_cells, body_at, column_at, columns_at, counted, cut_arrays, ends_of, entries,
    field_prefixes_at, fixed_reader, last_or_zero, lc_cell, lc_flags, lc_inner, lc_reader, lc_width,
    lemma_nested_reader, low_cardinality_at, map_at, nested_reader, nullable_at, nullable_cells,
    offset_reader, prefixes_at, read_at, same_count, span, string_reader, tuple_at, tuple_cells,
    Cells, MAX_READ_DEPTH, Nested,
};
use crate::native::values::{
    all_fit, cell, cells, default_val, entry_cells, entry_lists, field_vals, fits, key_vals,
    lemma_all_fit, lemma_array_items, lemma_cells, lemma_cells_ext, lemma_default_total,
    lemma_default_val, lemma_each_ok, lemma_entries_fit, lemma_entries_total, lemma_entry_cells,
    lemma_fields_at, lemma_fields_fit, lemma_fields_total, lemma_flat_entries, lemma_flat_items,
    lemma_flat_push, lemma_flat_split, lemma_items_fit, lemma_items_total, lemma_map_pairs,
    lemma_size, lemma_slots_total, lemma_total_len, lemma_total_push, list_cells, lists_of,
    pairs_of, size, slot_vals, total, tuple_rows, value_vals, Val,
};

verus! {

/// Whether columns of the type come back as they were written: the types that
/// the encoder takes, but for a JSON column inside another type, which is
/// declared as JSON and written as strings.
pub open spec fn plain(t: Ty) -> bool
    decreases t,
{
    fixed_size(t) is Some || match t {
        Ty::String => true,
        Ty::Json => true,
        Ty::Nullable(x) => plain(*x),
        Ty::LowCardinality(x) => match *x {
            Ty::Nullable(y) => plain(*y) && default_val(*y) is Some,
            _ => plain(*x),
        },
        Ty::Array(x) => plain(*x),
        Ty::Mapping(k, v) => plain(*k) && plain(*v),
        Ty::Tuple(ts) => all_plain(ts),
        _ => false,
    }
}

/// Whether all of `ts` are plain.
pub open spec fn all_plain(ts: Seq<Ty>) -> bool
    decreases ts,
{
    ts.len() == 0 || (all_plain(ts.subrange(0, ts.len() - 1)) && plain(ts[ts.len() - 1]))
}

// ---------------------------------------------------------------------------
// Offsets
// ---------------------------------------------------------------------------

/// The cumulative lengths of lists.
pub open spec fn offsets_of<T>(lists: Seq<Seq<T>>) -> Seq<u64> {
    Seq::new(lists.len(), |i: int| flat(lists.take(i + 1)).len() as u64)
}

/// The cumulative lengths of lists, as mathematical numbers.
pub open spec fn cuts_of<T>(lists: Seq<Seq<T>>) -> Seq<nat> {
    Seq::new(lists.len(), |i: int| flat(lists.take(i + 1)).len())
}

pub proof fn lemma_flat_grows<T>(lists: Seq<Seq<T>>, i: int, j: int)
    requires
        0 <= i <= j <= lists.len(),
    ensures
        flat(lists.take(i)).len() <= flat(lists.take(j)).len(),
    decreases j - i,
{
    if i < j {
        lemma_flat_grows(lists, i, j - 1);
        assert(lists.take(j).drop_last() =~= lists.take(j - 1));
    }
}

/// The offsets of lists read back as their cumulative lengths.
pub proof fn lemma_offsets<T>(d: Seq<u8>, pos: int, lists: Seq<Seq<T>>)
    requires
        stands_at(d, pos, offset_bytes(lists)),
        flat(lists).len() <= u64::MAX,
    ensures
        many(offset_reader(d), pos, lists.len()) == Ok::<(Seq<u64>, int), ErrorView>(
            (offsets_of(lists), pos + offset_bytes(lists).len()),
        ),
        offset_bytes(lists).len() == 8 * lists.len(),
        last_or_zero(offsets_of(lists)) == flat(lists).len(),
    decreases lists.len(),
{
    if lists.len() > 0 {
        let before = lists.drop_last();
        let n = flat(lists).len();
        assert(before =~= lists.take(lists.len() - 1));
        assert(lists.take(lists.len() as int) =~= lists);
        lemma_flat_grows(lists, lists.len() - 1, lists.len() as int);
        lemma_stands_split(d, pos, offset_bytes(before), le_bytes(n, 8));
        lemma_offsets(d, pos, before);
        lemma_pow256();
        law_le_round_trip(n, 8);
        let p = pos + offset_bytes(before).len();
        assert(u64_at(d, p) == Ok::<(u64, int), ErrorView>((n as u64, p + 8)));
        assert forall|i: int| 0 <= i < before.len() implies #[trigger] offsets_of(before)[i]
            == offsets_of(lists)[i] by {
            assert(before.take(i + 1) =~= lists.take(i + 1));
        }
        assert(offsets_of(lists) =~= offsets_of(before).push(n as u64));
    } else {
        assert(offsets_of(lists) =~= seq![]);
    }
}

/// The cumulative lengths are sound ends of spans.
proof fn lemma_ends<T>(lists: Seq<Seq<T>>, available: nat, what: Seq<char>)
    requires
        flat(lists).len() <= available <= usize::MAX,
    ensures
        ends_of(offsets_of(lists), available, what) == Ok::<Seq<nat>, ErrorView>(cuts_of(lists)),
    decreases lists.len(),
{
    if lists.len() > 0 {
        let before = lists.drop_last();
        let n = flat(lists).len();
        assert(before =~= lists.take(lists.len() - 1));
        assert(lists.take(lists.len() as int) =~= lists);
        lemma_flat_grows(lists, lists.len() - 1, lists.len() as int);
        lemma_ends(before, available, what);
        assert forall|i: int| 0 <= i < before.len() implies #[trigger] offsets_of(before)[i]
            == offsets_of(lists)[i] by {
            assert(before.take(i + 1) =~= lists.take(i + 1));
        }
        assert forall|i: int| 0 <= i < before.len() implies #[trigger] cuts_of(before)[i]
            == cuts_of(lists)[i] by {
            assert(before.take(i + 1) =~= lists.take(i + 1));
        }
        assert(offsets_of(lists).drop_last() =~= offsets_of(before));
        assert(cuts_of(lists) =~= cuts_of(before).push(n));
        if before.len() > 0 {
            assert(before.take(before.len() as int) =~= before);
            assert(cuts_of(before).last() == flat(before).len());
        }
    } else {
        assert(offsets_of(lists) =~= seq![]);
        assert(cuts_of(lists) =~= seq![]);
    }
}

/// The spans of a concatenation are the lists it was made of.
proof fn lemma_span<T>(lists: Seq<Seq<T>>, i: int)
    requires
        0 <= i < lists.len(),
    ensures
        span(flat(lists), cuts_of(lists), i) == lists[i],
{
    let a = lists.take(i);
    let b = lists.skip(i + 1);
    assert(a.push(lists[i]) =~= lists.take(i + 1));
    lemma_flat_push(a, lists[i]);
    assert(lists.take(i + 1) + b =~= lists);
    lemma_flat_split(lists.take(i + 1), b);
    let from = flat(a).len() as int;
    if i == 0 {
        assert(a =~= seq![]);
    } else {
        assert(cuts_of(lists)[i - 1] == flat(lists.take(i)).len());
    }
    assert(flat(lists).subrange(from, from + lists[i].len()) =~= lists[i]);
}

/// Offsets depend on the lengths of the lists alone.
pub proof fn lemma_offsets_same<A, B>(a: Seq<Seq<A>>, b: Seq<Seq<B>>)
    requires
        a.len() == b.len(),
        forall|i: int| 0 <= i < a.len() ==> (#[trigger] a[i]).len() == b[i].len(),
    ensures
        offset_bytes(a) == offset_bytes(b),
        flat(a).len() == flat(b).len(),
    decreases a.len(),
{
    if a.len() > 0 {
        let x = a.drop_last();
        let y = b.drop_last();
        assert forall|i: int| 0 <= i < x.len() implies (#[trigger] x[i]).len() == y[i].len() by {
            assert(a[i].len() == b[i].len());
        }
        lemma_offsets_same(x, y);
        assert(a[a.len() - 1].len() == b[b.len() - 1].len());
    }
}

// ---------------------------------------------------------------------------
// LowCardinality
// ---------------------------------------------------------------------------

/// The value that a `LowCardinality` row puts into the dictionary, where it is
/// not NULL.
pub open spec fn lc_val(v: Val, x: Ty) -> Option<Val> {
    if !(x is Nullable) {
        Some(v)
    } else {
        match v {
            Val::Present(z) => Some(*z),
            _ => None,
        }
    }
}

/// The values of the dictionary of a `LowCardinality` column: every value once,
/// in the order of its first use, behind the default where rows can be NULL.
pub open spec fn lc_vals(vals: Seq<Val>, x: Ty) -> Seq<Val>
    decreases vals.len(),
{
    if vals.len() == 0 {
        if x is Nullable {
            seq![default_val(dict_type(x))->Some_0]
        } else {
            seq![]
        }
    } else {
        let before = lc_vals(vals.drop_last(), x);
        match lc_val(vals.last(), x) {
            Some(v) if position(cells(before).skip(first_dict(x).len() as int), cell(v)) is None => {
                before.push(v)
            },
            _ => before,
        }
    }
}

/// The dictionary of values is made of values, and every index leads back to
/// its value.
proof fn lemma_dictionary(vals: Seq<Val>, x: Ty, dict: Seq<Seq<u8>>, indices: Seq<nat>) -> (dv:
    Seq<Val>)
    requires
        all_fit(vals, Ty::LowCardinality(Box::new(x))),
        plain(Ty::LowCardinality(Box::new(x))),
        lc_scan(lc_keys(cells(vals), x is Nullable), first_dict(x)) == Ok::<
            (Seq<Seq<u8>>, Seq<nat>),
            ErrorView,
        >((dict, indices)),
    ensures
        dv == lc_vals(vals, x),
        dict == cells(dv),
        all_fit(dv, dict_type(x)),
        total(dv) <= total(vals) + 1,
        indices.len() == vals.len(),
        dict.len() <= 0x1_0000_0000,
        dict.len() >= first_dict(x).len(),
        forall|i: int|
            0 <= i < vals.len() ==> (#[trigger] indices[i] < dict.len() || (x is Nullable
                && indices[i] == 0)) && indices[i] <= u32::MAX && lc_cell(
                dict,
                indices[i],
                x is Nullable,
            ) == Ok::<Seq<u8>, ErrorView>(cell(vals[i])),
    decreases vals.len(),
{
    let nullable = x is Nullable;
    let keys = lc_keys(cells(vals), nullable);
    lemma_cells(vals);
    if vals.len() == 0 {
        assert(keys =~= seq![]);
        if nullable {
            let y = dict_type(x);
            lemma_default_val(y);
            let v = default_val(y)->Some_0;
            let dv = seq![v];
            assert(dv.subrange(0, 0) =~= seq![]);
            assert(cells(dv) =~= seq![cell(v)]) by {
                lemma_cells(dv);
            }
            assert(dict =~= cells(dv));
            lemma_all_fit(dv, y);
            lemma_total_push(seq![], v);
            assert(seq![].push(v) =~= dv);
            lemma_default_total(y);
            dv
        } else {
            assert(dict =~= cells(Seq::<Val>::empty()));
            Seq::empty()
        }
    } else {
        let before = vals.drop_last();
        let v = vals.last();
        lemma_cells(before);
        assert(before =~= vals.subrange(0, vals.len() - 1));
        assert(keys.drop_last() =~= lc_keys(cells(before), nullable));
        assert(keys.last() == lc_key(cell(v), nullable));
        let (d, ix) = lc_scan(keys.drop_last(), first_dict(x))->Ok_0;
        let dv0 = lemma_dictionary(before, x, d, ix);
        lemma_size(v);
        assert(fits(v, Ty::LowCardinality(Box::new(x))));
        lemma_cells(dv0);
        let dv = if let Some(key) = keys.last() {
            let k = first_dict(x).len();
            let behind = d.skip(k as int);
            lemma_position(behind, key);
            let inner = if nullable {
                *v->Present_0
            } else {
                v
            };
            assert(key =~= cell(inner)) by {
                if nullable {
                    assert(cell(v) == seq![0u8] + cell(inner));
                    assert(cell(v).skip(1) =~= cell(inner));
                }
            }
            match position(behind, key) {
                Some(i) => {
                    assert(indices =~= ix.push(k + i));
                    assert(behind[i as int] == d[(k + i) as int]);
                    dv0
                },
                None => {
                    assert(indices =~= ix.push(d.len()));
                    lemma_total_push(dv0, inner);
                    lemma_cells(dv0.push(inner));
                    assert(cells(dv0.push(inner)) =~= d.push(key));
                    lemma_all_fit(dv0, dict_type(x));
                    lemma_all_fit(dv0.push(inner), dict_type(x));
                    dv0.push(inner)
                },
            }
        } else {
            assert(indices =~= ix.push(0));
            dv0
        };
        assert forall|i: int| 0 <= i < vals.len() implies (#[trigger] indices[i] < dict.len() || (
        nullable && indices[i] == 0)) && indices[i] <= u32::MAX && lc_cell(
            dict,
            indices[i],
            nullable,
        ) == Ok::<Seq<u8>, ErrorView>(cell(vals[i])) by {
            if i < before.len() {
                assert(ix[i] == indices[i]);
                assert(before[i] == vals[i]);
                if indices[i] < d.len() {
                    assert(dict[indices[i] as int] == d[indices[i] as int]);
                }
            } else {
                if let Some(key) = keys.last() {
                    assert(dict[indices[i] as int] == key);
                }
            }
        }
        dv
    }
}

proof fn lemma_position(dict: Seq<Seq<u8>>, key: Seq<u8>)
    ensures
        position(dict, key) matches Some(i) ==> i < dict.len() && dict[i as int] == key,
    decreases dict.len(),
{
    if dict.len() > 0 {
        lemma_position(dict.drop_last(), key);
    }
}

// ---------------------------------------------------------------------------
// What a column of values is made of
// ---------------------------------------------------------------------------

/// A nullable column: its flags, and the values in its slots.
pub proof fn lemma_nullable_layout(vals: Seq<Val>, x: Ty)
    requires
        all_fit(vals, Ty::Nullable(Box::new(x))),
    ensures
        !some_empty(cells(vals)),
        null_values(cells(vals), x) == cells(slot_vals(vals, x)),
        all_fit(slot_vals(vals, x), x),
        total(slot_vals(vals, x)) <= total(vals),
        null_flags(cells(vals)).len() == vals.len(),
        forall|i: int|
            0 <= i < vals.len() ==> #[trigger] null_flags(cells(vals))[i] == if vals[i] is Absent {
                1u8
            } else {
                0u8
            },
{
    let t = Ty::Nullable(Box::new(x));
    let slots = slot_vals(vals, x);
    lemma_cells(vals);
    lemma_all_fit(vals, t);
    lemma_default_val(x);
    assert forall|i: int| 0 <= i < vals.len() implies (#[trigger] cells(vals)[i]).len() > 0
        && null_flags(cells(vals))[i] == (if vals[i] is Absent {
        1u8
    } else {
        0u8
    }) && null_values(cells(vals), x)[i] == cell(slots[i]) && fits(slots[i], x) by {
        assert(fits(vals[i], t));
        if let Val::Present(y) = vals[i] {
            assert(cell(vals[i]).skip(1) =~= cell(*y));
        }
    }
    assert forall|i: int| 0 <= i < vals.len() implies #[trigger] null_flags(cells(vals))[i] == (
    if vals[i] is Absent {
        1u8
    } else {
        0u8
    }) by {
        assert(cells(vals)[i].len() > 0);
    }
    assert forall|i: int| 0 <= i < slots.len() implies #[trigger] null_values(
        cells(vals),
        x,
    )[i] == cell(slots[i]) by {
        assert(cells(vals)[i].len() > 0);
    }
    lemma_cells_ext(null_values(cells(vals), x), slots);
    assert forall|i: int| 0 <= i < slots.len() implies fits(#[trigger] slots[i], x) by {
        assert(cells(vals)[i].len() > 0);
    }
    lemma_all_fit(slots, x);
    assert forall|i: int| 0 <= i < vals.len() implies ((#[trigger] vals[i]) is Present
        || default_val(x) is Some) by {
        assert(fits(vals[i], t));
    }
    lemma_slots_total(vals, x);
}

/// An array column: the items of its cells.
pub proof fn lemma_array_layout(vals: Seq<Val>, x: Ty)
    requires
        all_fit(vals, Ty::Array(Box::new(x))),
    ensures
        each(cells(vals), array_of(x)) == Ok::<Seq<Seq<Seq<u8>>>, ErrorView>(list_cells(vals)),
        flat(list_cells(vals)) == cells(flat(lists_of(vals))),
        all_fit(flat(lists_of(vals)), x),
        total(flat(lists_of(vals))) <= total(vals),
        forall|i: int|
            0 <= i < vals.len() ==> counted(#[trigger] list_cells(vals)[i]) == cell(vals[i]),
{
    let t = Ty::Array(Box::new(x));
    lemma_cells(vals);
    lemma_all_fit(vals, t);
    assert forall|i: int| 0 <= i < vals.len() implies array_of(x)(#[trigger] cells(vals)[i]) == Ok::<
        Seq<Seq<u8>>,
        ErrorView,
    >(list_cells(vals)[i]) by {
        assert(fits(vals[i], t));
        lemma_array_items(vals[i]->List_0, x);
    }
    lemma_each_ok(cells(vals), array_of(x), list_cells(vals));
    lemma_flat_items(vals);
    lemma_items_fit(vals, x);
    assert forall|i: int| 0 <= i < vals.len() implies (#[trigger] vals[i]) is List by {
        assert(fits(vals[i], t));
    }
    lemma_items_total(vals);
    assert forall|i: int| 0 <= i < vals.len() implies counted(#[trigger] list_cells(vals)[i])
        == cell(vals[i]) by {
        assert(vals[i] is List);
        lemma_cells(vals[i]->List_0);
    }
}

/// The joined entries of map values.
pub open spec fn joined_entries(vals: Seq<Val>) -> Seq<Seq<Seq<u8>>> {
    vals.map_values(|v: Val| entry_cells(v->Pairs_0))
}

proof fn lemma_joined_entries(vals: Seq<Val>)
    ensures
        flat(joined_entries(vals)) == entry_cells(flat(pairs_of(vals))),
    decreases vals.len(),
{
    if vals.len() > 0 {
        let before = vals.drop_last();
        lemma_joined_entries(before);
        assert(joined_entries(vals).drop_last() =~= joined_entries(before));
        assert(pairs_of(vals).drop_last() =~= pairs_of(before));
        let a = flat(pairs_of(before));
        let b = vals.last()->Pairs_0;
        lemma_entry_cells(a);
        lemma_entry_cells(b);
        lemma_entry_cells(a + b);
        assert(entry_cells(a + b) =~= entry_cells(a) + entry_cells(b));
    } else {
        assert(joined_entries(vals) =~= seq![]);
        assert(pairs_of(vals) =~= seq![]);
    }
}

/// A map column: the keys and values of its cells.
pub proof fn lemma_map_layout(vals: Seq<Val>, k: Ty, v: Ty)
    requires
        all_fit(vals, Ty::Mapping(Box::new(k), Box::new(v))),
    ensures
        each(cells(vals), map_of(k, v)) == Ok::<Seq<Seq<(Seq<u8>, Seq<u8>)>>, ErrorView>(
            entry_lists(vals),
        ),
        firsts(flat(entry_lists(vals))) == cells(key_vals(flat(pairs_of(vals)))),
        seconds(flat(entry_lists(vals))) == cells(value_vals(flat(pairs_of(vals)))),
        all_fit(key_vals(flat(pairs_of(vals))), k),
        all_fit(value_vals(flat(pairs_of(vals))), v),
        total(key_vals(flat(pairs_of(vals)))) <= total(vals),
        total(value_vals(flat(pairs_of(vals)))) <= total(vals),
        offset_bytes(entry_lists(vals)) == offset_bytes(joined_entries(vals)),
        flat(joined_entries(vals)) == entry_cells(flat(pairs_of(vals))),
        forall|i: int|
            0 <= i < vals.len() ==> counted(#[trigger] joined_entries(vals)[i]) == cell(vals[i]),
{
    let t = Ty::Mapping(Box::new(k), Box::new(v));
    lemma_cells(vals);
    lemma_all_fit(vals, t);
    assert forall|i: int| 0 <= i < vals.len() implies map_of(k, v)(#[trigger] cells(vals)[i]) == Ok::<
        Seq<(Seq<u8>, Seq<u8>)>,
        ErrorView,
    >(entry_lists(vals)[i]) by {
        assert(fits(vals[i], t));
        lemma_map_pairs(vals[i]->Pairs_0, k, v);
    }
    lemma_each_ok(cells(vals), map_of(k, v), entry_lists(vals));
    lemma_flat_entries(vals);
    lemma_entries_fit(vals, k, v);
    assert forall|i: int| 0 <= i < vals.len() implies (#[trigger] vals[i]) is Pairs by {
        assert(fits(vals[i], t));
    }
    lemma_entries_total(vals);
    let all = flat(pairs_of(vals));
    lemma_cells(key_vals(all));
    lemma_cells(value_vals(all));
    assert(firsts(flat(entry_lists(vals))) =~= cells(key_vals(all)));
    assert(seconds(flat(entry_lists(vals))) =~= cells(value_vals(all)));
    assert forall|i: int| 0 <= i < vals.len() implies (#[trigger] entry_lists(vals)[i]).len()
        == joined_entries(vals)[i].len() by {
        lemma_entry_cells(vals[i]->Pairs_0);
    }
    lemma_offsets_same(entry_lists(vals), joined_entries(vals));
    lemma_joined_entries(vals);
    assert forall|i: int| 0 <= i < vals.len() implies counted(#[trigger] joined_entries(vals)[i])
        == cell(vals[i]) by {
        assert(vals[i] is Pairs);
        lemma_entry_cells(vals[i]->Pairs_0);
    }
}

/// A tuple column: the fields of its cells.
pub proof fn lemma_tuple_layout(vals: Seq<Val>, ts: Seq<Ty>)
    requires
        all_fit(vals, Ty::Tuple(ts)),
    ensures
        each(cells(vals), tuple_of(ts)) == Ok::<Seq<Seq<Seq<u8>>>, ErrorView>(tuple_rows(vals)),
        rows_fit(vals, ts),
        forall|i: int|
            0 <= i < vals.len() ==> (#[trigger] vals[i]) is Fields && vals[i]->Fields_0.len()
                == ts.len(),
{
    let t = Ty::Tuple(ts);
    lemma_cells(vals);
    lemma_all_fit(vals, t);
    assert forall|i: int| 0 <= i < vals.len() implies tuple_of(ts)(#[trigger] cells(vals)[i]) == Ok::<
        Seq<Seq<u8>>,
        ErrorView,
    >(tuple_rows(vals)[i]) by {
        assert(fits(vals[i], t));
        let d = cell(vals[i]);
        assert(d.subrange(0, d.len() as int) =~= d);
        lemma_fields_at(d, vals[i]->Fields_0, ts);
    }
    lemma_each_ok(cells(vals), tuple_of(ts), tuple_rows(vals));
    assert forall|i: int| 0 <= i < vals.len() implies (#[trigger] vals[i]) is Fields
        && vals[i]->Fields_0.len() == ts.len() by {
        assert(fits(vals[i], t));
        lemma_fields_fit(vals[i]->Fields_0, ts);
    }
    assert forall|k: int| 0 <= k < ts.len() implies all_fit(
        #[trigger] field_vals(vals, k),
        ts[k],
    ) by {
        assert forall|i: int| 0 <= i < vals.len() implies fits(
            #[trigger] field_vals(vals, k)[i],
            ts[k],
        ) by {
            assert(fits(vals[i], t));
            lemma_fields_fit(vals[i]->Fields_0, ts);
            assert(fits(vals[i]->Fields_0[k], ts[k]));
        }
        lemma_all_fit(field_vals(vals, k), ts[k]);
    }
}

/// The fields of the rows are values of the types `ts`.
pub open spec fn rows_fit(vals: Seq<Val>, ts: Seq<Ty>) -> bool {
    &&& forall|i: int|
        0 <= i < vals.len() ==> (#[trigger] vals[i]) is Fields && vals[i]->Fields_0.len()
            >= ts.len()
    &&& forall|k: int|
        0 <= k < ts.len() ==> all_fit(#[trigger] field_vals(vals, k), ts[k])
}

// ---------------------------------------------------------------------------
// Reading cells back
// ---------------------------------------------------------------------------

/// Whether a buffer of `m` cells or offsets stays within the budget.
pub open spec fn affords(w: WireView, m: nat) -> bool {
    claim::<Vec<u8>>(m, w.budget) is Ok && claim::<u64>(m, w.budget) is Ok
}

/// A smaller buffer is within the budget too.
pub proof fn lemma_claim<T>(n: nat, m: nat, budget: nat)
    requires
        n <= m,
        claim::<T>(m, budget) is Ok,
    ensures
        claim::<T>(n, budget) is Ok,
{
    let s = vstd::layout::size_of::<T>();
    assert(n * s <= m * s) by (nonlinear_arith)
        requires
            n <= m,
    ;
}

pub proof fn lemma_fixed_back(d: Seq<u8>, pos: int, vals: Seq<Val>, size: nat)
    requires
        forall|i: int|
            0 <= i < vals.len() ==> (#[trigger] vals[i]) is Raw && vals[i]->Raw_0.len() == size,
        stands_at(d, pos, flat(cells(vals))),
    ensures
        many(fixed_reader(d, size), pos, vals.len()) == Ok::<(Cells, int), ErrorView>(
            (cells(vals), pos + flat(cells(vals)).len()),
        ),
    decreases vals.len(),
{
    if vals.len() > 0 {
        let before = vals.drop_last();
        assert(before =~= vals.subrange(0, vals.len() - 1));
        assert forall|i: int| 0 <= i < before.len() implies (#[trigger] before[i]) is Raw
            && before[i]->Raw_0.len() == size by {
            assert(vals[i] is Raw);
        }
        assert(vals[vals.len() - 1] is Raw);
        lemma_flat_push(cells(before), cell(vals.last()));
        lemma_stands_split(d, pos, flat(cells(before)), cell(vals.last()));
        lemma_fixed_back(d, pos, before, size);
    }
}

proof fn lemma_strings_back(d: Seq<u8>, pos: int, vals: Seq<Val>)
    requires
        forall|i: int|
            0 <= i < vals.len() ==> (#[trigger] vals[i]) is Text && vals[i]->Text_0.len()
                <= MAX_STRING_SIZE,
        stands_at(d, pos, flat(cells(vals))),
    ensures
        many(string_reader(d), pos, vals.len()) == Ok::<(Cells, int), ErrorView>(
            (cells(vals), pos + flat(cells(vals)).len()),
        ),
    decreases vals.len(),
{
    if vals.len() > 0 {
        let before = vals.drop_last();
        assert(before =~= vals.subrange(0, vals.len() - 1));
        assert forall|i: int| 0 <= i < before.len() implies (#[trigger] before[i]) is Text
            && before[i]->Text_0.len() <= MAX_STRING_SIZE by {
            assert(vals[i] is Text);
        }
        assert(vals[vals.len() - 1] is Text);
        lemma_flat_push(cells(before), cell(vals.last()));
        lemma_stands_split(d, pos, flat(cells(before)), cell(vals.last()));
        lemma_strings_back(d, pos, before);
        law_string_round_trip(
            d,
            pos + flat(cells(before)).len(),
            vals.last()->Text_0,
        );
    }
}

/// Indices of a dictionary read back as the cells they stand for.
proof fn lemma_indices_back(
    d: Seq<u8>,
    pos: int,
    dict: Cells,
    indices: Seq<nat>,
    nullable: bool,
    width: nat,
    out: Cells,
)
    requires
        out.len() == indices.len(),
        stands_at(d, pos, index_bytes(indices, width)),
        forall|i: int|
            0 <= i < indices.len() ==> (#[trigger] indices[i]) < pow256(width) && indices[i]
                <= u32::MAX && lc_cell(dict, indices[i], nullable) == Ok::<Seq<u8>, ErrorView>(
                out[i],
            ),
    ensures
        many(lc_reader(d, dict, nullable, width), pos, indices.len()) == Ok::<
            (Cells, int),
            ErrorView,
        >((out, pos + index_bytes(indices, width).len())),
        index_bytes(indices, width).len() == width * indices.len(),
    decreases indices.len(),
{
    if indices.len() > 0 {
        let before = indices.drop_last();
        let n = indices.last();
        let front = out.drop_last();
        assert forall|i: int| 0 <= i < before.len() implies (#[trigger] before[i]) < pow256(width)
            && before[i] <= u32::MAX && lc_cell(dict, before[i], nullable) == Ok::<
            Seq<u8>,
            ErrorView,
        >(front[i]) by {
            assert(indices[i] < pow256(width));
        }
        assert(indices[indices.len() - 1] < pow256(width));
        lemma_stands_split(d, pos, index_bytes(before, width), le_bytes(n, width));
        lemma_indices_back(d, pos, dict, before, nullable, width, front);
        law_le_round_trip(n, width);
        assert(front.push(out.last()) =~= out);
        assert(width * indices.len() == width * before.len() + width) by (nonlinear_arith)
            requires
                indices.len() == before.len() + 1,
        ;
    } else {
        assert(out =~= seq![]);
        assert(width * 0 == 0) by (nonlinear_arith);
    }
}

/// `b` is the native form of the column of `vals`.
#[verifier::opaque]
pub open spec fn written_as(vals: Seq<Val>, t: Ty, b: Seq<u8>) -> bool {
    col_bytes(cells(vals), t) == Ok::<Seq<u8>, ErrorView>(b)
}

/// The column of `vals` at `pos` reads back as their cells.
#[verifier::opaque]
pub open spec fn reads_back(w: WireView, pos: int, vals: Seq<Val>, t: Ty, depth: nat, len: nat) -> bool {
    read_at(w, pos, t, vals.len() as u64, depth) == Ok::<(Cells, int), ErrorView>(
        (cells(vals), pos + len),
    )
}

/// A sub-column that reads back is what its reader finds.
pub proof fn lemma_nested(w: WireView, pos: int, vals: Seq<Val>, t: Ty, depth: nat, len: nat)
    requires
        reads_back(w, pos, vals, t, depth, len),
        depth <= 33,
    ensures
        nested_reader(w, depth)(pos, t, vals.len() as u64) == Ok::<(Cells, int), ErrorView>(
            (cells(vals), pos + len),
        ),
{
    reveal(reads_back);
    lemma_nested_reader(w, pos, t, vals.len() as u64, depth);
}

// What the native form of a column is made of, type by type.

pub proof fn lemma_nullable_written(vals: Seq<Val>, x: Ty, b: Seq<u8>) -> (b2: Seq<u8>)
    requires
        all_fit(vals, Ty::Nullable(Box::new(x))),
        written_as(vals, Ty::Nullable(Box::new(x)), b),
    ensures
        b == null_flags(cells(vals)) + b2,
        written_as(slot_vals(vals, x), x, b2),
{
    reveal(written_as);
    lemma_nullable_layout(vals, x);
    col_bytes(cells(slot_vals(vals, x)), x)->Ok_0
}

pub proof fn lemma_array_written(vals: Seq<Val>, x: Ty, b: Seq<u8>) -> (b2: Seq<u8>)
    requires
        all_fit(vals, Ty::Array(Box::new(x))),
        written_as(vals, Ty::Array(Box::new(x)), b),
    ensures
        b == offset_bytes(list_cells(vals)) + b2,
        written_as(flat(lists_of(vals)), x, b2),
{
    reveal(written_as);
    lemma_array_layout(vals, x);
    col_bytes(cells(flat(lists_of(vals))), x)->Ok_0
}

pub proof fn lemma_map_written(vals: Seq<Val>, k: Ty, v: Ty, b: Seq<u8>) -> (parts: (
    Seq<u8>,
    Seq<u8>,
))
    requires
        all_fit(vals, Ty::Mapping(Box::new(k), Box::new(v))),
        written_as(vals, Ty::Mapping(Box::new(k), Box::new(v)), b),
    ensures
        b == offset_bytes(joined_entries(vals)) + parts.0 + parts.1,
        written_as(key_vals(flat(pairs_of(vals))), k, parts.0),
        written_as(value_vals(flat(pairs_of(vals))), v, parts.1),
{
    reveal(written_as);
    lemma_map_layout(vals, k, v);
    let all = flat(pairs_of(vals));
    (col_bytes(cells(key_vals(all)), k)->Ok_0, col_bytes(cells(value_vals(all)), v)->Ok_0)
}

/// The parts of the native form of a `LowCardinality` column.
pub struct LowCardinalityForm {
    pub dict: Seq<Seq<u8>>,
    pub indices: Seq<nat>,
    pub keys: Seq<u8>,
    pub dict_vals: Seq<Val>,
}

/// The place in the dictionary of every row of a `LowCardinality` column.
pub open spec fn lc_places(vals: Seq<Val>, x: Ty) -> Seq<nat> {
    lc_scan(lc_keys(cells(vals), x is Nullable), first_dict(x))->Ok_0.1
}

/// The flags of a `LowCardinality` block with a dictionary of `n` keys.
pub open spec fn lc_state(n: nat) -> u64 {
    (HAS_ADDITIONAL_KEYS as nat + index_code(n)) as u64
}

/// `b` is made of the parts of `f`, and every index leads back to its value.
pub open spec fn is_lc_form(f: LowCardinalityForm, vals: Seq<Val>, x: Ty, b: Seq<u8>) -> bool {
    &&& b == le_bytes(lc_state(f.dict.len()) as nat, 8) + le_bytes(f.dict.len(), 8) + f.keys
        + le_bytes(f.indices.len(), 8) + index_bytes(f.indices, index_width(f.dict.len()))
    &&& f.dict == cells(f.dict_vals)
    &&& f.dict_vals == lc_vals(vals, x)
    &&& f.indices == lc_places(vals, x)
    &&& all_fit(f.dict_vals, dict_type(x))
    &&& total(f.dict_vals) <= total(vals) + 1
    &&& f.indices.len() == vals.len()
    &&& f.dict.len() <= 0x1_0000_0000
    &&& written_as(f.dict_vals, dict_type(x), f.keys)
    &&& forall|i: int|
        0 <= i < vals.len() ==> (#[trigger] f.indices[i]) < pow256(index_width(f.dict.len()))
            && f.indices[i] <= u32::MAX && lc_cell(f.dict, f.indices[i], x is Nullable) == Ok::<
            Seq<u8>,
            ErrorView,
        >(cell(vals[i]))
}

pub proof fn lemma_low_cardinality_written(vals: Seq<Val>, x: Ty, b: Seq<u8>) -> (f:
    LowCardinalityForm)
    requires
        plain(Ty::LowCardinality(Box::new(x))),
        all_fit(vals, Ty::LowCardinality(Box::new(x))),
        written_as(vals, Ty::LowCardinality(Box::new(x)), b),
    ensures
        is_lc_form(f, vals, x, b),
{
    reveal(written_as);
    lemma_pow256();
    let (dict, indices) = lc_scan(lc_keys(cells(vals), x is Nullable), first_dict(x))->Ok_0;
    let dict_vals = lemma_dictionary(vals, x, dict, indices);
    let keys = col_bytes(dict, dict_type(x))->Ok_0;
    let f = LowCardinalityForm { dict, indices, keys, dict_vals };
    assert forall|i: int| 0 <= i < vals.len() implies (#[trigger] f.indices[i]) < pow256(
        index_width(f.dict.len()),
    ) && f.indices[i] <= u32::MAX && lc_cell(f.dict, f.indices[i], x is Nullable) == Ok::<
        Seq<u8>,
        ErrorView,
    >(cell(vals[i])) by {
        assert(indices[i] < dict.len() || (x is Nullable && indices[i] == 0));
    }
    f
}

// Reading back, type by type.

proof fn lemma_nullable_back(
    nested: Nested,
    w: WireView,
    pos: int,
    vals: Seq<Val>,
    x: Ty,
    len: nat,
)
    requires
        all_fit(vals, Ty::Nullable(Box::new(x))),
        vals.len() <= u64::MAX,
        stands_at(w.bytes, pos, null_flags(cells(vals))),
        nested(pos + vals.len(), x, vals.len() as u64) == Ok::<(Cells, int), ErrorView>(
            (cells(slot_vals(vals, x)), pos + vals.len() + len),
        ),
        claim::<Vec<u8>>(vals.len(), w.budget) is Ok,
    ensures
        nullable_at(nested, w, pos, vals.len(), x) == Ok::<(Cells, int), ErrorView>(
            (cells(vals), pos + vals.len() + len),
        ),
{
    let slots = slot_vals(vals, x);
    let flags = null_flags(cells(vals));
    lemma_nullable_layout(vals, x);
    lemma_cells(slots);
    let t = Ty::Nullable(Box::new(x));
    lemma_all_fit(vals, t);
    let out = nullable_cells(flags, cells(slots), vals.len());
    assert forall|i: int| 0 <= i < vals.len() implies #[trigger] out[i] == cell(vals[i]) by {
        assert(fits(vals[i], t));
        assert(flags[i] == if vals[i] is Absent {
            1u8
        } else {
            0u8
        });
        assert(cells(slots)[i] == cell(slots[i]));
    }
    lemma_cells_ext(out, vals);
}

proof fn lemma_low_cardinality_back(
    nested: Nested,
    w: WireView,
    pos: int,
    vals: Seq<Val>,
    x: Ty,
    b: Seq<u8>,
    f: LowCardinalityForm,
)
    requires
        is_lc_form(f, vals, x, b),
        vals.len() <= usize::MAX,
        stands_at(w.bytes, pos, b),
        nested(pos + 16, dict_type(x), f.dict.len() as u64) == Ok::<(Cells, int), ErrorView>(
            (f.dict, pos + 16 + f.keys.len()),
        ),
        claim::<Vec<u8>>(vals.len(), w.budget) is Ok,
    ensures
        low_cardinality_at(nested, w, pos, vals.len(), x) == Ok::<(Cells, int), ErrorView>(
            (cells(vals), pos + b.len()),
        ),
{
    let nullable = x is Nullable;
    let state = lc_state(f.dict.len());
    let width = index_width(f.dict.len());
    let head = le_bytes(state as nat, 8);
    let size = le_bytes(f.dict.len(), 8);
    let count = le_bytes(f.indices.len(), 8);
    let tail = index_bytes(f.indices, width);
    lemma_pow256();
    lemma_stands_split(w.bytes, pos, head + size + f.keys + count, tail);
    lemma_stands_split(w.bytes, pos, head + size + f.keys, count);
    lemma_stands_split(w.bytes, pos, head + size, f.keys);
    lemma_stands_split(w.bytes, pos, head, size);
    law_le_round_trip(state as nat, 8);
    law_le_round_trip(f.dict.len(), 8);
    law_le_round_trip(f.indices.len(), 8);
    assert(u64_at(w.bytes, pos) == Ok::<(u64, int), ErrorView>((state, pos + 8)));
    assert(u64_at(w.bytes, pos + 8) == Ok::<(u64, int), ErrorView>(
        (f.dict.len() as u64, pos + 16),
    ));
    assert(lc_flags(state) is Ok);
    assert(lc_width(state) == width);
    assert(lc_inner(x) == (dict_type(x), nullable));
    let p = pos + 16 + f.keys.len();
    assert(u64_at(w.bytes, p) == Ok::<(u64, int), ErrorView>((f.indices.len() as u64, p + 8)));
    lemma_cells(vals);
    assert forall|i: int| 0 <= i < f.indices.len() implies (#[trigger] f.indices[i]) < pow256(
        width,
    ) && f.indices[i] <= u32::MAX && lc_cell(f.dict, f.indices[i], nullable) == Ok::<
        Seq<u8>,
        ErrorView,
    >(cells(vals)[i]) by {
        assert(cells(vals)[i] == cell(vals[i]));
    }
    lemma_indices_back(w.bytes, p + 8, f.dict, f.indices, nullable, width, cells(vals));
}

/// Offsets cut a concatenation back into the cells it was made of.
proof fn lemma_cut_back(vals: Seq<Val>, lists: Seq<Seq<Seq<u8>>>, what: Seq<char>)
    requires
        lists.len() == vals.len(),
        flat(lists).len() <= usize::MAX,
        forall|i: int| 0 <= i < vals.len() ==> counted(#[trigger] lists[i]) == cell(vals[i]),
    ensures
        cut_arrays(flat(lists), offsets_of(lists), what) == Ok::<Cells, ErrorView>(cells(vals)),
{
    lemma_ends(lists, flat(lists).len(), what);
    let out = array_cells(flat(lists), cuts_of(lists));
    assert forall|i: int| 0 <= i < vals.len() implies #[trigger] out[i] == cell(vals[i]) by {
        lemma_span(lists, i);
        assert(counted(lists[i]) == cell(vals[i]));
    }
    lemma_cells_ext(out, vals);
}

proof fn lemma_array_back(
    nested: Nested,
    w: WireView,
    pos: int,
    vals: Seq<Val>,
    x: Ty,
    len: nat,
)
    requires
        all_fit(vals, Ty::Array(Box::new(x))),
        flat(lists_of(vals)).len() <= usize::MAX,
        stands_at(w.bytes, pos, offset_bytes(list_cells(vals))),
        nested(
            pos + offset_bytes(list_cells(vals)).len(),
            x,
            flat(lists_of(vals)).len() as u64,
        ) == Ok::<(Cells, int), ErrorView>(
            (
                cells(flat(lists_of(vals))),
                pos + offset_bytes(list_cells(vals)).len() + len,
            ),
        ),
        claim::<Vec<u8>>(vals.len(), w.budget) is Ok,
        claim::<u64>(vals.len(), w.budget) is Ok,
    ensures
        array_at(nested, w, pos, vals.len(), x) == Ok::<(Cells, int), ErrorView>(
            (cells(vals), pos + offset_bytes(list_cells(vals)).len() + len),
        ),
{
    let lists = list_cells(vals);
    let items = flat(lists_of(vals));
    lemma_array_layout(vals, x);
    lemma_cells(items);
    lemma_offsets(w.bytes, pos, lists);
    lemma_cut_back(vals, lists, "Array"@);
}

proof fn lemma_map_back(
    nested: Nested,
    w: WireView,
    pos: int,
    vals: Seq<Val>,
    k: Ty,
    v: Ty,
    len1: nat,
    len2: nat,
)
    requires
        all_fit(vals, Ty::Mapping(Box::new(k), Box::new(v))),
        flat(pairs_of(vals)).len() <= usize::MAX,
        stands_at(w.bytes, pos, offset_bytes(joined_entries(vals))),
        nested(
            pos + offset_bytes(joined_entries(vals)).len(),
            k,
            flat(pairs_of(vals)).len() as u64,
        ) == Ok::<(Cells, int), ErrorView>(
            (
                cells(key_vals(flat(pairs_of(vals)))),
                pos + offset_bytes(joined_entries(vals)).len() + len1,
            ),
        ),
        nested(
            pos + offset_bytes(joined_entries(vals)).len() + len1,
            v,
            flat(pairs_of(vals)).len() as u64,
        ) == Ok::<(Cells, int), ErrorView>(
            (
                cells(value_vals(flat(pairs_of(vals)))),
                pos + offset_bytes(joined_entries(vals)).len() + len1 + len2,
            ),
        ),
        claim::<Vec<u8>>(vals.len(), w.budget) is Ok,
        claim::<u64>(vals.len(), w.budget) is Ok,
    ensures
        map_at(nested, w, pos, vals.len(), k, v) == Ok::<(Cells, int), ErrorView>(
            (cells(vals), pos + offset_bytes(joined_entries(vals)).len() + len1 + len2),
        ),
{
    let all = flat(pairs_of(vals));
    let lists = joined_entries(vals);
    lemma_map_layout(vals, k, v);
    lemma_cells(key_vals(all));
    lemma_cells(value_vals(all));
    lemma_entry_cells(all);
    lemma_offsets(w.bytes, pos, lists);
    assert(entries(cells(key_vals(all)), cells(value_vals(all))) =~= entry_cells(all));
    lemma_cut_back(vals, lists, "Map"@);
}

/// The cells of the fields of tuple values.
pub open spec fn field_columns(vals: Seq<Val>, n: nat) -> Seq<Cells> {
    Seq::new(n, |k: int| cells(field_vals(vals, k)))
}

pub proof fn lemma_field_column(vals: Seq<Val>, k: int)
    requires
        0 <= k,
        forall|i: int|
            0 <= i < vals.len() ==> (#[trigger] vals[i]) is Fields && k
                < vals[i]->Fields_0.len(),
    ensures
        column(tuple_rows(vals), k) == cells(field_vals(vals, k)),
{
    let f = field_vals(vals, k);
    assert forall|i: int| 0 <= i < vals.len() implies #[trigger] column(tuple_rows(vals), k)[i]
        == cell(f[i]) by {
        assert(vals[i] is Fields);
        lemma_cells(vals[i]->Fields_0);
        assert(cells(vals[i]->Fields_0)[k] == cell(vals[i]->Fields_0[k]));
    }
    lemma_cells_ext(column(tuple_rows(vals), k), f);
}

/// The fields of the rows of a tuple column are written as `b`.
#[verifier::opaque]
pub open spec fn fields_written_as(vals: Seq<Val>, ts: Seq<Ty>, b: Seq<u8>) -> bool {
    fields_bytes(tuple_rows(vals), ts) == Ok::<Seq<u8>, ErrorView>(b)
}

pub proof fn lemma_tuple_written(vals: Seq<Val>, ts: Seq<Ty>, b: Seq<u8>)
    requires
        all_fit(vals, Ty::Tuple(ts)),
        written_as(vals, Ty::Tuple(ts), b),
    ensures
        fields_written_as(vals, ts, b),
{
    reveal(written_as);
    reveal(fields_written_as);
    lemma_tuple_layout(vals, ts);
}

pub proof fn lemma_last_field_written(vals: Seq<Val>, ts: Seq<Ty>, b: Seq<u8>) -> (parts: (
    Seq<u8>,
    Seq<u8>,
))
    requires
        ts.len() > 0,
        rows_fit(vals, ts),
        fields_written_as(vals, ts, b),
    ensures
        b == parts.0 + parts.1,
        fields_written_as(vals, ts.subrange(0, ts.len() - 1), parts.0),
        written_as(field_vals(vals, ts.len() - 1), ts[ts.len() - 1], parts.1),
        rows_fit(vals, ts.subrange(0, ts.len() - 1)),
        all_fit(field_vals(vals, ts.len() - 1), ts[ts.len() - 1]),
        total(field_vals(vals, ts.len() - 1)) <= total(vals),
{
    reveal(written_as);
    reveal(fields_written_as);
    let n = ts.len() - 1;
    let before = ts.subrange(0, n);
    assert forall|k: int| 0 <= k < before.len() implies all_fit(
        #[trigger] field_vals(vals, k),
        before[k],
    ) by {
        assert(all_fit(field_vals(vals, k), ts[k]));
    }
    lemma_field_column(vals, n as int);
    lemma_fields_total(vals, n as int);
    assert(all_fit(field_vals(vals, n as int), ts[n as int]));
    (
        fields_bytes(tuple_rows(vals), before)->Ok_0,
        col_bytes(cells(field_vals(vals, n as int)), ts[n as int])->Ok_0,
    )
}

/// The sub-columns at `pos` read back as the fields of the rows.
#[verifier::opaque]
pub open spec fn fields_read_back(
    w: WireView,
    pos: int,
    vals: Seq<Val>,
    ts: Seq<Ty>,
    depth: nat,
    len: nat,
    counts: Seq<u64>,
) -> bool {
    columns_at(nested_reader(w, depth), pos, ts, counts) == Ok::<(Seq<Cells>, int), ErrorView>(
        (field_columns(vals, ts.len()), pos + len),
    )
}

proof fn lemma_push_field_back(
    w: WireView,
    pos: int,
    vals: Seq<Val>,
    ts: Seq<Ty>,
    depth: nat,
    len1: nat,
    len2: nat,
    counts: Seq<u64>,
)
    requires
        ts.len() > 0,
        counts.len() >= ts.len(),
        counts[ts.len() - 1] == vals.len() as u64,
        depth <= 33,
        fields_read_back(w, pos, vals, ts.subrange(0, ts.len() - 1), depth, len1, counts),
        reads_back(
            w,
            pos + len1,
            field_vals(vals, ts.len() - 1),
            ts[ts.len() - 1],
            depth,
            len2,
        ),
    ensures
        fields_read_back(w, pos, vals, ts, depth, len1 + len2, counts),
{
    reveal(fields_read_back);
    let n = ts.len() - 1;
    let f = field_vals(vals, n as int);
    assert(ts.subrange(0, n) =~= ts.drop_last());
    assert(f.len() == vals.len());
    lemma_nested(w, pos + len1, f, ts[n as int], depth, len2);
    assert(field_columns(vals, ts.len()) =~= field_columns(vals, n as nat).push(cells(f)));
}

proof fn lemma_fields_back(
    w: WireView,
    pos: int,
    vals: Seq<Val>,
    ts: Seq<Ty>,
    depth: nat,
    m: nat,
    b: Seq<u8>,
    counts: Seq<u64>,
)
    requires
        all_plain(ts),
        rows_fit(vals, ts),
        fields_written_as(vals, ts, b),
        stands_at(w.bytes, pos, b),
        0 < depth,
        depth + deepest(ts) <= 32,
        total(vals) + deepest(ts) <= m <= usize::MAX,
        affords(w, m),
        counts.len() >= ts.len(),
        forall|i: int| 0 <= i < counts.len() ==> counts[i] == vals.len() as u64,
    ensures
        fields_read_back(w, pos, vals, ts, depth, b.len(), counts),
    decreases ts, 0nat,
{
    if ts.len() > 0 {
        let n = ts.len() - 1;
        let (b1, b2) = lemma_last_field_written(vals, ts, b);
        lemma_stands_split(w.bytes, pos, b1, b2);
        lemma_fields_back(w, pos, vals, ts.subrange(0, n), depth, m, b1, counts);
        lemma_read_back(
            w,
            pos + b1.len(),
            field_vals(vals, n as int),
            ts[n as int],
            depth,
            m,
            b2,
        );
        lemma_push_field_back(w, pos, vals, ts, depth, b1.len(), b2.len(), counts);
    } else {
        reveal(fields_read_back);
        reveal(fields_written_as);
        assert(field_columns(vals, 0) =~= seq![]);
    }
}

proof fn lemma_tuple_back(
    w: WireView,
    pos: int,
    vals: Seq<Val>,
    ts: Seq<Ty>,
    depth: nat,
    len: nat,
)
    requires
        all_fit(vals, Ty::Tuple(ts)),
        fields_read_back(w, pos, vals, ts, depth, len, same_count(vals.len(), ts.len())),
        claim::<Vec<u8>>(vals.len(), w.budget) is Ok,
    ensures
        tuple_at(nested_reader(w, depth), w, pos, vals.len(), ts) == Ok::<
            (Cells, int),
            ErrorView,
        >((cells(vals), pos + len)),
{
    reveal(fields_read_back);
    let n = vals.len();
    lemma_tuple_layout(vals, ts);
    let cols = field_columns(vals, ts.len());
    let out = tuple_cells(cols, n);
    assert forall|i: int| 0 <= i < n implies #[trigger] out[i] == cell(vals[i]) by {
        let fields = vals[i]->Fields_0;
        assert(vals[i] is Fields && fields.len() == ts.len());
        lemma_cells(fields);
        assert forall|k: int| 0 <= k < ts.len() implies #[trigger] column(cols, i)[k] == cells(
            fields,
        )[k] by {
            lemma_cells(field_vals(vals, k));
            assert(cells(field_vals(vals, k))[i] == cell(field_vals(vals, k)[i]));
        }
        assert(column(cols, i) =~= cells(fields));
    }
    lemma_cells_ext(out, vals);
}

/// What a column reads back as, by its type.
proof fn lemma_read_from(
    w: WireView,
    pos: int,
    vals: Seq<Val>,
    t: Ty,
    depth: nat,
    len: nat,
)
    requires
        depth <= 32,
        depth > 0 || vals.len() > 0,
        vals.len() <= usize::MAX,
        ({
            let nested = nested_reader(w, depth + 1);
            let want = Ok::<(Cells, int), ErrorView>((cells(vals), pos + len));
            let n = vals.len();
            match t {
                Ty::Nullable(x) => nullable_at(nested, w, pos, n, *x) == want,
                Ty::LowCardinality(x) => low_cardinality_at(nested, w, pos, n, *x) == want,
                Ty::Array(x) => array_at(nested, w, pos, n, *x) == want,
                Ty::Mapping(k, v) => map_at(nested, w, pos, n, *k, *v) == want,
                Ty::Tuple(ts) => tuple_at(nested, w, pos, n, ts) == want,
                _ => false,
            }
        }),
    ensures
        reads_back(w, pos, vals, t, depth, len),
{
    reveal(reads_back);
    reveal(body_at);
    reveal(nested_reader);
}

proof fn lemma_flat_back(w: WireView, pos: int, vals: Seq<Val>, t: Ty, depth: nat, b: Seq<u8>)
    requires
        fixed_size(t) is Some || t is String || t is Json,
        all_fit(vals, t),
        written_as(vals, t, b),
        stands_at(w.bytes, pos, b),
        depth <= 32,
        depth > 0 || vals.len() > 0,
        vals.len() <= usize::MAX,
        claim::<Vec<u8>>(vals.len(), w.budget) is Ok,
    ensures
        reads_back(w, pos, vals, t, depth, b.len()),
{
    reveal(written_as);
    reveal(reads_back);
    reveal(body_at);
    lemma_all_fit(vals, t);
    match fixed_size(t) {
        Some(size) => {
            assert forall|i: int| 0 <= i < vals.len() implies (#[trigger] vals[i]) is Raw
                && vals[i]->Raw_0.len() == size by {
                assert(fits(vals[i], t));
            }
            lemma_fixed_back(w.bytes, pos, vals, size as nat);
        },
        None => {
            assert forall|i: int| 0 <= i < vals.len() implies (#[trigger] vals[i]) is Text
                && vals[i]->Text_0.len() <= MAX_STRING_SIZE by {
                assert(fits(vals[i], t));
            }
            lemma_strings_back(w.bytes, pos, vals);
        },
    }
}

/// Values that were written as a column read back as their cells.
pub proof fn lemma_read_back(
    w: WireView,
    pos: int,
    vals: Seq<Val>,
    t: Ty,
    depth: nat,
    m: nat,
    b: Seq<u8>,
)
    requires
        plain(t),
        all_fit(vals, t),
        written_as(vals, t, b),
        stands_at(w.bytes, pos, b),
        depth + nesting(t) <= 32,
        total(vals) + nesting(t) <= m <= usize::MAX,
        affords(w, m),
        depth > 0 || vals.len() > 0,
    ensures
        reads_back(w, pos, vals, t, depth, b.len()),
    decreases t, 1nat,
{
    lemma_total_len(vals);
    lemma_claim::<Vec<u8>>(vals.len(), m, w.budget);
    if fixed_size(t) is Some {
        lemma_flat_back(w, pos, vals, t, depth, b);
    } else {
        match t {
            Ty::String => {
                lemma_flat_back(w, pos, vals, t, depth, b);
            },
            Ty::Json => {
                lemma_flat_back(w, pos, vals, t, depth, b);
            },
            Ty::Nullable(x) => {
                lemma_read_nullable(w, pos, vals, *x, depth, m, b);
            },
            Ty::LowCardinality(x) => {
                lemma_read_low_cardinality(w, pos, vals, *x, depth, m, b);
            },
            Ty::Array(x) => {
                lemma_read_array(w, pos, vals, *x, depth, m, b);
            },
            Ty::Mapping(k, v) => {
                lemma_read_map(w, pos, vals, t, depth, m, b);
            },
            Ty::Tuple(ts) => {
                lemma_read_tuple(w, pos, vals, ts, depth, m, b);
            },
            _ => {},
        }
    }
}

proof fn lemma_read_nullable(
    w: WireView,
    pos: int,
    vals: Seq<Val>,
    x: Ty,
    depth: nat,
    m: nat,
    b: Seq<u8>,
)
    requires
        plain(Ty::Nullable(Box::new(x))),
        all_fit(vals, Ty::Nullable(Box::new(x))),
        written_as(vals, Ty::Nullable(Box::new(x)), b),
        stands_at(w.bytes, pos, b),
        depth + nesting(Ty::Nullable(Box::new(x))) <= 32,
        total(vals) + nesting(Ty::Nullable(Box::new(x))) <= m <= usize::MAX,
        affords(w, m),
        depth > 0 || vals.len() > 0,
    ensures
        reads_back(w, pos, vals, Ty::Nullable(Box::new(x)), depth, b.len()),
    decreases x, 2nat,
{
    let n = vals.len();
    let nested = nested_reader(w, depth + 1);
    lemma_total_len(vals);
    lemma_claim::<Vec<u8>>(n, m, w.budget);
    lemma_claim::<u64>(n, m, w.budget);
        let b2 = lemma_nullable_written(vals, x, b);
        lemma_nullable_layout(vals, x);
        let slots = slot_vals(vals, x);
        lemma_stands_split(w.bytes, pos, null_flags(cells(vals)), b2);
        lemma_read_back(w, pos + n, slots, x, depth + 1, m, b2);
        lemma_nested(w, pos + n, slots, x, depth + 1, b2.len());
        lemma_nullable_back(nested, w, pos, vals, x, b2.len());
        lemma_read_from(w, pos, vals, Ty::Nullable(Box::new(x)), depth, b.len());
}

proof fn lemma_read_low_cardinality(
    w: WireView,
    pos: int,
    vals: Seq<Val>,
    x: Ty,
    depth: nat,
    m: nat,
    b: Seq<u8>,
)
    requires
        plain(Ty::LowCardinality(Box::new(x))),
        all_fit(vals, Ty::LowCardinality(Box::new(x))),
        written_as(vals, Ty::LowCardinality(Box::new(x)), b),
        stands_at(w.bytes, pos, b),
        depth + nesting(Ty::LowCardinality(Box::new(x))) <= 32,
        total(vals) + nesting(Ty::LowCardinality(Box::new(x))) <= m <= usize::MAX,
        affords(w, m),
        depth > 0 || vals.len() > 0,
    ensures
        reads_back(w, pos, vals, Ty::LowCardinality(Box::new(x)), depth, b.len()),
    decreases x, 2nat,
{
    let n = vals.len();
    let nested = nested_reader(w, depth + 1);
    lemma_total_len(vals);
    lemma_claim::<Vec<u8>>(n, m, w.budget);
    lemma_claim::<u64>(n, m, w.budget);
        let f = lemma_low_cardinality_written(vals, x, b);
        lemma_lc_keys_stand(w.bytes, pos, f, vals, x, b);
        assert(nesting(dict_type(x)) <= nesting(x));
        lemma_cells(f.dict_vals);
        lemma_read_back(
            w,
            pos + 16,
            f.dict_vals,
            dict_type(x),
            depth + 1,
            m,
            f.keys,
        );
        lemma_nested(w, pos + 16, f.dict_vals, dict_type(x), depth + 1, f.keys.len());
        lemma_low_cardinality_back(nested, w, pos, vals, x, b, f);
        lemma_read_from(w, pos, vals, Ty::LowCardinality(Box::new(x)), depth, b.len());
}

proof fn lemma_read_array(
    w: WireView,
    pos: int,
    vals: Seq<Val>,
    x: Ty,
    depth: nat,
    m: nat,
    b: Seq<u8>,
)
    requires
        plain(Ty::Array(Box::new(x))),
        all_fit(vals, Ty::Array(Box::new(x))),
        written_as(vals, Ty::Array(Box::new(x)), b),
        stands_at(w.bytes, pos, b),
        depth + nesting(Ty::Array(Box::new(x))) <= 32,
        total(vals) + nesting(Ty::Array(Box::new(x))) <= m <= usize::MAX,
        affords(w, m),
        depth > 0 || vals.len() > 0,
    ensures
        reads_back(w, pos, vals, Ty::Array(Box::new(x)), depth, b.len()),
    decreases x, 2nat,
{
    let n = vals.len();
    let nested = nested_reader(w, depth + 1);
    lemma_total_len(vals);
    lemma_claim::<Vec<u8>>(n, m, w.budget);
    lemma_claim::<u64>(n, m, w.budget);
        let b2 = lemma_array_written(vals, x, b);
        lemma_array_layout(vals, x);
        let head = offset_bytes(list_cells(vals));
        let items = flat(lists_of(vals));
        lemma_total_len(items);
        lemma_stands_split(w.bytes, pos, head, b2);
        lemma_read_back(w, pos + head.len(), items, x, depth + 1, m, b2);
        lemma_nested(w, pos + head.len(), items, x, depth + 1, b2.len());
        lemma_array_back(nested, w, pos, vals, x, b2.len());
        lemma_read_from(w, pos, vals, Ty::Array(Box::new(x)), depth, b.len());
}

proof fn lemma_read_map(
    w: WireView,
    pos: int,
    vals: Seq<Val>,
    t: Ty,
    depth: nat,
    m: nat,
    b: Seq<u8>,
)
    requires
        t is Mapping,
        plain(t),
        all_fit(vals, t),
        written_as(vals, t, b),
        stands_at(w.bytes, pos, b),
        depth + nesting(t) <= 32,
        total(vals) + nesting(t) <= m <= usize::MAX,
        affords(w, m),
        depth > 0 || vals.len() > 0,
    ensures
        reads_back(w, pos, vals, t, depth, b.len()),
    decreases t, 0nat,
{
    let n = vals.len();
    let nested = nested_reader(w, depth + 1);
    lemma_total_len(vals);
    lemma_claim::<Vec<u8>>(n, m, w.budget);
    lemma_claim::<u64>(n, m, w.budget);
    let k = *t->Mapping_0;
    let v = *t->Mapping_1;
        let (b1, b2) = lemma_map_written(vals, k, v, b);
        lemma_map_layout(vals, k, v);
        let head = offset_bytes(joined_entries(vals));
        let all = flat(pairs_of(vals));
        lemma_total_len(key_vals(all));
        lemma_stands_split(w.bytes, pos, head + b1, b2);
        lemma_stands_split(w.bytes, pos, head, b1);
        let p = pos + head.len();
        lemma_read_back(w, p, key_vals(all), k, depth + 1, m, b1);
        lemma_nested(w, p, key_vals(all), k, depth + 1, b1.len());
        lemma_read_back(w, p + b1.len(), value_vals(all), v, depth + 1, m, b2);
        lemma_nested(w, p + b1.len(), value_vals(all), v, depth + 1, b2.len());
        lemma_map_back(nested, w, pos, vals, k, v, b1.len(), b2.len());
        lemma_read_from(w, pos, vals, t, depth, b.len());
}

proof fn lemma_read_tuple(
    w: WireView,
    pos: int,
    vals: Seq<Val>,
    ts: Seq<Ty>,
    depth: nat,
    m: nat,
    b: Seq<u8>,
)
    requires
        plain(Ty::Tuple(ts)),
        all_fit(vals, Ty::Tuple(ts)),
        written_as(vals, Ty::Tuple(ts), b),
        stands_at(w.bytes, pos, b),
        depth + nesting(Ty::Tuple(ts)) <= 32,
        total(vals) + nesting(Ty::Tuple(ts)) <= m <= usize::MAX,
        affords(w, m),
        depth > 0 || vals.len() > 0,
    ensures
        reads_back(w, pos, vals, Ty::Tuple(ts), depth, b.len()),
    decreases ts, 2nat,
{
    let n = vals.len();
    let nested = nested_reader(w, depth + 1);
    lemma_total_len(vals);
    lemma_claim::<Vec<u8>>(n, m, w.budget);
    lemma_claim::<u64>(n, m, w.budget);
        lemma_tuple_written(vals, ts, b);
        lemma_tuple_layout(vals, ts);
        lemma_fields_back(w, pos, vals, ts, depth + 1, m, b, same_count(n, ts.len()));
        lemma_tuple_back(w, pos, vals, ts, depth + 1, b.len());
        lemma_read_from(w, pos, vals, Ty::Tuple(ts), depth, b.len());
}

/// Where the dictionary of a `LowCardinality` column stands.
pub proof fn lemma_lc_keys_stand(
    d: Seq<u8>,
    pos: int,
    f: LowCardinalityForm,
    vals: Seq<Val>,
    x: Ty,
    b: Seq<u8>,
)
    requires
        is_lc_form(f, vals, x, b),
        stands_at(d, pos, b),
    ensures
        stands_at(d, pos + 16, f.keys),
{
    let head = le_bytes(lc_state(f.dict.len()) as nat, 8);
    let size = le_bytes(f.dict.len(), 8);
    let count = le_bytes(f.indices.len(), 8);
    let tail = index_bytes(f.indices, index_width(f.dict.len()));
    lemma_stands_split(d, pos, head + size + f.keys + count, tail);
    lemma_stands_split(d, pos, head + size + f.keys, count);
    lemma_stands_split(d, pos, head + size, f.keys);
    lemma_le_bytes_len(lc_state(f.dict.len()) as nat, 8);
    lemma_le_bytes_len(f.dict.len(), 8);
}

// ---------------------------------------------------------------------------
// Prefixes
// ---------------------------------------------------------------------------

pub proof fn lemma_prefixes_back(w: WireView, pos: int, t: Ty, depth: nat)
    requires
        plain(t),
        stands_at(w.bytes, pos, prefixes(t)),
        depth + nesting(t) <= 32,
    ensures
        prefixes_at(w, pos, t, depth) == Ok::<((), int), ErrorView>(((), pos + prefixes(t).len())),
    decreases t,
{
    match t {
        Ty::LowCardinality(_) => {
            lemma_le_bytes_len(1, 8);
        },
        Ty::Nullable(x) => {
            lemma_prefixes_back(w, pos, *x, depth + 1);
        },
        Ty::Array(x) => {
            lemma_prefixes_back(w, pos, *x, depth + 1);
        },
        Ty::Mapping(k, v) => {
            lemma_stands_split(w.bytes, pos, prefixes(*k), prefixes(*v));
            lemma_prefixes_back(w, pos, *k, depth + 1);
            lemma_prefixes_back(w, pos + prefixes(*k).len(), *v, depth + 1);
        },
        Ty::Tuple(ts) => {
            lemma_field_prefixes_back(w, pos, ts, depth + 1);
        },
        _ => {},
    }
}

pub proof fn lemma_field_prefixes_back(w: WireView, pos: int, ts: Seq<Ty>, depth: nat)
    requires
        all_plain(ts),
        stands_at(w.bytes, pos, field_prefixes(ts)),
        depth + deepest(ts) <= 32,
    ensures
        field_prefixes_at(w, pos, ts, depth) == Ok::<((), int), ErrorView>(
            ((), pos + field_prefixes(ts).len()),
        ),
    decreases ts,
{
    if ts.len() > 0 {
        let n = ts.len() - 1;
        let before = ts.subrange(0, n);
        lemma_stands_split(w.bytes, pos, field_prefixes(before), prefixes(ts[n as int]));
        lemma_field_prefixes_back(w, pos, before, depth);
        lemma_prefixes_back(w, pos + field_prefixes(before).len(), ts[n as int], depth);
    }
}

/// Values that were written as a column, prefixes included, read back as their
/// `RowBinary` cells, and the reader stops right behind them.
///
/// The encoder's own success is asked for: it refuses a dictionary that
/// outgrows its indices. The budget must cover the buffers of the column.
pub proof fn law_cells_round_trip(w: WireView, pos: int, vals: Seq<Val>, t: Ty, b: Seq<u8>)
    requires
        plain(t),
        nesting(t) <= MAX_READ_DEPTH,
        vals.len() > 0,
        all_fit(vals, t),
        col_bytes(cells(vals), t) == Ok::<Seq<u8>, ErrorView>(b),
        stands_at(w.bytes, pos, prefixes(t) + b),
        total(vals) + nesting(t) <= usize::MAX,
        affords(w, total(vals) + nesting(t)),
    ensures
        column_at(w, pos, t, vals.len() as u64) == Ok::<(Cells, int), ErrorView>(
            (cells(vals), pos + prefixes(t).len() + b.len()),
        ),
{
    lemma_total_len(vals);
    lemma_stands_split(w.bytes, pos, prefixes(t), b);
    lemma_prefixes_back(w, pos, t, 0);
    assert(written_as(vals, t, b)) by {
        reveal(written_as);
    }
    let p = pos + prefixes(t).len();
    lemma_read_back(w, p, vals, t, 0, total(vals) + nesting(t), b);
    assert(read_at(w, p, t, vals.len() as u64, 0) == Ok::<(Cells, int), ErrorView>(
        (cells(vals), p + b.len()),
    )) by {
        reveal(reads_back);
    }
}

} // verus!
