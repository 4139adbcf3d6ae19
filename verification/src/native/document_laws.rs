//! Columns whose rows are of several types: every row is shown as the value it
//! was given.

use vstd::prelude::*;
use vstd::string::*;

use crate::error::ErrorView;
use crate::native::columns::{deepest, type_of, ColumnType, Ty};
use crate::native::encode::{col_bytes, field_prefixes};
use crate::native::io::{
    bytes_at, claim, law_le_round_trip, law_string_round_trip, law_var_uint_round_trip, le_bytes,
    le_nat, lemma_pow256, lemma_stands_split, many, stands_at, string, table, utf8_string_at,
    var_uint, Read, WireView, MAX_STRING_SIZE,
};
use crate::native::json::{json_cell, null_text};
use crate::native::laws::{
    affords, all_plain, lemma_field_prefixes_back, lemma_nested, lemma_read_back, written_as,
};
use crate::native::names::{law_names_are_sorted, sorted};
use crate::native::reader::{
    all_shown, as_nats, body_at, chosen_at, chosen_json, column_at, columns_at, disc_reader,
    document, dynamic_at, dynamic_flat_at, dynamic_names_at, flat_chosen_at, flat_types_at,
    is_absent, member, name_reader, name_type, nested_reader, shared_out, shown_at, tallies, tally,
    type_reader, variant_at, wire_type_of, wire_types, Cells, Chosen, ColumnData, Types,
    MAX_VARIANT_TYPES,
};
use crate::native::values::{
    all_fit, cell, cells, fits, lemma_cells, lemma_total_push, size, total, Val,
};

verus! {

/// A row of a column of several types: a value and the place of its type among
/// them, or NULL.
pub type Row = Option<(nat, Val)>;

/// The values of the rows of the type at place `d`, in row order.
pub open spec fn owned(rows: Seq<Row>, d: nat) -> Seq<Val>
    decreases rows.len(),
{
    if rows.len() == 0 {
        seq![]
    } else {
        match rows.last() {
            Some((k, v)) if k == d => owned(rows.drop_last(), d).push(v),
            _ => owned(rows.drop_last(), d),
        }
    }
}

/// The place of the type of every row, and `null` for NULL.
pub open spec fn places_of(rows: Seq<Row>, null: nat) -> Seq<nat> {
    rows.map_values(
        |r: Row|
            match r {
                Some((d, _)) => d,
                None => null,
            },
    )
}

/// Whether every row is a value of its type.
pub open spec fn rows_fit_types(rows: Seq<Row>, ts: Seq<Ty>) -> bool {
    forall|i: int|
        0 <= i < rows.len() ==> ((#[trigger] rows[i]) matches Some((d, v)) ==> d < ts.len() && fits(
            v,
            ts[d as int],
        ))
}

/// The native columns of the values of every type, one behind the other.
pub open spec fn laid_out(rows: Seq<Row>, ts: Seq<Ty>) -> Result<Seq<u8>, ErrorView>
    decreases ts.len(),
{
    if ts.len() == 0 {
        Ok(seq![])
    } else {
        match laid_out(rows, ts.drop_last()) {
            Ok(b) => match col_bytes(cells(owned(rows, (ts.len() - 1) as nat)), ts.last()) {
                Ok(c) => Ok(b + c),
                Err(e) => Err(e),
            },
            Err(e) => Err(e),
        }
    }
}

/// How many values the rows are made of.
pub open spec fn rows_total(rows: Seq<Row>) -> nat
    decreases rows.len(),
{
    if rows.len() == 0 {
        0
    } else {
        rows_total(rows.drop_last()) + match rows.last() {
            Some((_, v)) => size(v),
            None => 0,
        }
    }
}

/// The JSON text of a row: that of its value alone, and `null` for NULL.
#[verifier::opaque]
pub open spec fn row_text(row: Row, ts: Seq<Ty>, w: WireView) -> Result<Seq<u8>, ErrorView> {
    match row {
        Some((d, v)) => json_cell(cell(v), ts[d as int], w.texts),
        None => Ok(seq![110u8, 117u8, 108u8, 108u8]),
    }
}

/// The cell that holds a text.
pub open spec fn held(text: Result<Seq<u8>, ErrorView>) -> Result<Seq<u8>, ErrorView> {
    match text {
        Ok(t) => Ok(string(t)),
        Err(e) => Err(e),
    }
}

/// What was read are the texts of the rows, row by row, as strings, up to
/// `end`; or it asks for the text of a number that a row needs.
pub open spec fn shows_rows(
    read: Read<Cells>,
    rows: Seq<Row>,
    ts: Seq<Ty>,
    w: WireView,
    end: int,
) -> bool {
    match read {
        Ok((docs, p)) => {
            &&& p == end
            &&& docs.len() == rows.len()
            &&& forall|i: int|
                0 <= i < rows.len() ==> held(row_text(rows[i], ts, w)) == Ok::<Seq<u8>, ErrorView>(
                    #[trigger] docs[i],
                )
        },
        Err(e) => exists|i: int|
            0 <= i < rows.len() && #[trigger] row_text(rows[i], ts, w) == Err::<
                Seq<u8>,
                ErrorView,
            >(e),
    }
}

// ---------------------------------------------------------------------------
// Sharing out
// ---------------------------------------------------------------------------

/// A row's value stands in the column of its type at the place that the rows of
/// that type before it leave.
proof fn lemma_owned(rows: Seq<Row>, null: nat, d: nat, i: int)
    requires
        0 <= i <= rows.len(),
        d != null,
    ensures
        tally(places_of(rows, null), d) == owned(rows, d).len(),
        tally(places_of(rows, null).take(i), d) <= owned(rows, d).len(),
        i < rows.len() ==> (rows[i] matches Some((k, v)) ==> k == d ==> tally(
            places_of(rows, null).take(i),
            d,
        ) < owned(rows, d).len() && owned(rows, d)[tally(
            places_of(rows, null).take(i),
            d,
        ) as int] == v),
    decreases rows.len(),
{
    let places = places_of(rows, null);
    if rows.len() > 0 {
        let before = rows.drop_last();
        let n = rows.len() - 1;
        assert(places.drop_last() =~= places_of(before, null));
        assert(places.last() == places[n]);
        if i < rows.len() {
            lemma_owned(before, null, d, i);
            assert(places.take(i) =~= places_of(before, null).take(i));
            if i == n {
                assert(places.take(i) =~= places_of(before, null));
            } else {
                assert(before[i] == rows[i]);
            }
        } else {
            lemma_owned(before, null, d, 0);
            assert(places.take(i) =~= places);
        }
    } else {
        assert(places =~= seq![]);
        assert(places.take(i) =~= seq![]);
    }
}

proof fn lemma_owned_fit(rows: Seq<Row>, ts: Seq<Ty>, d: nat)
    requires
        rows_fit_types(rows, ts),
        d < ts.len(),
    ensures
        all_fit(owned(rows, d), ts[d as int]),
        total(owned(rows, d)) <= rows_total(rows),
        owned(rows, d).len() <= rows.len(),
    decreases rows.len(),
{
    if rows.len() > 0 {
        let before = rows.drop_last();
        assert(rows_fit_types(before, ts)) by {
            assert forall|i: int| 0 <= i < before.len() implies ((
            #[trigger] before[i]) matches Some((d, v)) ==> d < ts.len() && fits(
                v,
                ts[d as int],
            )) by {
                assert(before[i] == rows[i]);
            }
        }
        lemma_owned_fit(before, ts, d);
        if let Some((k, v)) = rows[rows.len() - 1] {
            if k == d {
                lemma_total_push(owned(before, d), v);
                assert(owned(before, d).push(v).drop_last() =~= owned(before, d));
            }
        }
    }
}

/// The columns of the types read as the values of their rows.
proof fn lemma_columns_back(
    w: WireView,
    pos: int,
    rows: Seq<Row>,
    all: Seq<Ty>,
    ts: Seq<Ty>,
    counts: Seq<u64>,
    depth: nat,
    m: nat,
    b: Seq<u8>,
)
    requires
        rows_fit_types(rows, all),
        ts == all.take(ts.len() as int),
        ts.len() <= all.len(),
        all_plain(ts),
        laid_out(rows, ts) == Ok::<Seq<u8>, ErrorView>(b),
        stands_at(w.bytes, pos, b),
        forall|d: int|
            0 <= d < ts.len() ==> #[trigger] counts[d] as nat == owned(rows, d as nat).len(),
        0 < depth,
        depth + deepest(ts) <= 32,
        rows_total(rows) + deepest(ts) <= m <= usize::MAX,
        affords(w, m),
    ensures
        columns_at(nested_reader(w, depth), pos, ts, counts) == Ok::<(Seq<Cells>, int), ErrorView>(
            (Seq::new(ts.len(), |d: int| cells(owned(rows, d as nat))), pos + b.len()),
        ),
    decreases ts.len(),
{
    let cols = Seq::new(ts.len(), |d: int| cells(owned(rows, d as nat)));
    if ts.len() > 0 {
        let n = ts.len() - 1;
        let before = ts.drop_last();
        assert(before =~= ts.subrange(0, n as int));
        assert(before =~= all.take(before.len() as int));
        let b1 = laid_out(rows, before)->Ok_0;
        let vals = owned(rows, n as nat);
        let b2 = col_bytes(cells(vals), ts.last())->Ok_0;
        lemma_stands_split(w.bytes, pos, b1, b2);
        lemma_columns_back(w, pos, rows, all, before, counts, depth, m, b1);
        assert(all[n as int] == ts[n as int]);
        lemma_owned_fit(rows, all, n as nat);
        assert(written_as(vals, ts.last(), b2)) by {
            reveal(written_as);
        }
        lemma_read_back(w, pos + b1.len(), vals, ts.last(), depth, m, b2);
        lemma_nested(w, pos + b1.len(), vals, ts.last(), depth, b2.len());
        assert(counts[n as int] as nat == vals.len());
        assert(counts[n as int] == vals.len() as u64);
        assert(cols.drop_last() =~= Seq::new(
            before.len(),
            |d: int| cells(owned(rows, d as nat)),
        ));
        assert(cols =~= cols.drop_last().push(cells(vals)));
    } else {
        assert(cols =~= seq![]);
    }
}

/// The sub-columns of laid out rows are found by their discriminators.
proof fn lemma_shared_out(
    w: WireView,
    pos: int,
    rows: Seq<Row>,
    ts: Seq<Ty>,
    null: nat,
    depth: nat,
    m: nat,
    b: Seq<u8>,
)
    requires
        rows_fit_types(rows, ts),
        all_plain(ts),
        null >= ts.len(),
        rows.len() <= u64::MAX,
        laid_out(rows, ts) == Ok::<Seq<u8>, ErrorView>(b),
        stands_at(w.bytes, pos, b),
        0 < depth,
        depth + deepest(ts) <= 32,
        rows_total(rows) + deepest(ts) <= m <= usize::MAX,
        affords(w, m),
        claim::<ColumnData>(ts.len(), w.budget) is Ok,
    ensures
        shared_out(nested_reader(w, depth), w, pos, places_of(rows, null), ts) == Ok::<
            (Chosen, int),
            ErrorView,
        >(
            (
                Chosen {
                    discs: places_of(rows, null),
                    cols: Seq::new(ts.len(), |d: int| cells(owned(rows, d as nat))),
                },
                pos + b.len(),
            ),
        ),
{
    let places = places_of(rows, null);
    let counts = tallies(places, ts.len());
    assert forall|d: int| 0 <= d < ts.len() implies #[trigger] counts[d] as nat == owned(
        rows,
        d as nat,
    ).len() by {
        lemma_owned(rows, null, d as nat, 0);
        lemma_owned_fit(rows, ts, d as nat);
    }
    assert(ts =~= ts.take(ts.len() as int));
    lemma_columns_back(w, pos, rows, ts, ts, counts, depth, m, b);
}

/// What is chosen for a row is its value.
pub proof fn lemma_row_shown(w: WireView, rows: Seq<Row>, types: Types, null: nat, i: int)
    requires
        rows_fit_types(rows, types.ts),
        null >= types.ts.len(),
        0 <= i < rows.len(),
        rows[i] matches Some((d, _)) ==> !types.hidden[d as int],
    ensures
        ({
            let chosen = Chosen {
                discs: places_of(rows, null),
                cols: Seq::new(types.ts.len(), |d: int| cells(owned(rows, d as nat))),
            };
            &&& is_absent(types, chosen, i) == rows[i] is None
            &&& rows[i] is Some ==> chosen_json(w, types, chosen, i) == row_text(
                rows[i],
                types.ts,
                w,
            )
        }),
{
    let chosen = Chosen {
        discs: places_of(rows, null),
        cols: Seq::new(types.ts.len(), |d: int| cells(owned(rows, d as nat))),
    };
    reveal(row_text);
    if let Some((d, v)) = rows[i] {
        lemma_owned(rows, null, d, i);
        lemma_cells(owned(rows, d));
        assert(chosen.discs[i] == d);
    } else {
        assert(chosen.discs[i] == null);
    }
}

proof fn lemma_document_shown(w: WireView, rows: Seq<Row>, types: Types, null: nat, i: int)
    requires
        rows_fit_types(rows, types.ts),
        null >= types.ts.len(),
        0 <= i < rows.len(),
        rows[i] matches Some((d, _)) ==> !types.hidden[d as int],
    ensures
        ({
            let chosen = Chosen {
                discs: places_of(rows, null),
                cols: Seq::new(types.ts.len(), |d: int| cells(owned(rows, d as nat))),
            };
            document(w, types, chosen)(i) == held(row_text(rows[i], types.ts, w))
        }),
{
    lemma_row_shown(w, rows, types, null, i);
    if rows[i] is None {
        reveal(row_text);
        assert(null_text() =~= seq![110u8, 117u8, 108u8, 108u8]);
    }
}

/// What a table holds, entry by entry.
pub proof fn lemma_table<T>(f: spec_fn(int) -> Result<T, ErrorView>, n: nat)
    ensures
        match table(f, n) {
            Ok(xs) => xs.len() == n && forall|i: int|
                0 <= i < n ==> f(i) == Ok::<T, ErrorView>(#[trigger] xs[i]),
            Err(e) => exists|i: int| 0 <= i < n && #[trigger] f(i) == Err::<T, ErrorView>(e),
        },
    decreases n,
{
    if n > 0 {
        lemma_table(f, (n - 1) as nat);
        if let Err(e) = table(f, (n - 1) as nat) {
            let i = choose|i: int| 0 <= i < n - 1 && #[trigger] f(i) == Err::<T, ErrorView>(e);
            assert(0 <= i < n && f(i) == Err::<T, ErrorView>(e));
        } else if let Err(e) = f(n - 1) {
            assert(f(n - 1) == Err::<T, ErrorView>(e));
        }
    }
}

/// A table of the cells of the rows shows them.
proof fn lemma_table_shows(
    f: spec_fn(int) -> Result<Seq<u8>, ErrorView>,
    rows: Seq<Row>,
    ts: Seq<Ty>,
    w: WireView,
    end: int,
)
    requires
        forall|i: int| 0 <= i < rows.len() ==> #[trigger] f(i) == held(row_text(rows[i], ts, w)),
    ensures
        shows_rows(
            match table(f, rows.len()) {
                Ok(docs) => Ok((docs, end)),
                Err(e) => Err(e),
            },
            rows,
            ts,
            w,
            end,
        ),
{
    lemma_table(f, rows.len());
    match table(f, rows.len()) {
        Ok(docs) => {
            assert forall|i: int| 0 <= i < rows.len() implies held(row_text(rows[i], ts, w)) == Ok::<
                Seq<u8>,
                ErrorView,
            >(#[trigger] docs[i]) by {
                assert(f(i) == Ok::<Seq<u8>, ErrorView>(docs[i]));
            }
        },
        Err(e) => {
            let i = choose|i: int|
                0 <= i < rows.len() && #[trigger] f(i) == Err::<Seq<u8>, ErrorView>(e);
            assert(f(i) == held(row_text(rows[i], ts, w)));
            assert(row_text(rows[i], ts, w) == Err::<Seq<u8>, ErrorView>(e));
        },
    }
}

/// Rows shared out by their discriminators.
pub open spec fn chosen_of(rows: Seq<Row>, k: nat, null: nat) -> Chosen {
    Chosen {
        discs: places_of(rows, null),
        cols: Seq::new(k, |d: int| cells(owned(rows, d as nat))),
    }
}

/// [`document`], as a whole.
#[verifier::opaque]
pub open spec fn document_of(w: WireView, types: Types, chosen: Chosen) -> spec_fn(int) -> Result<
    Seq<u8>,
    ErrorView,
> {
    document(w, types, chosen)
}

proof fn lemma_all_documents(w: WireView, rows: Seq<Row>, types: Types, null: nat)
    requires
        rows_fit_types(rows, types.ts),
        null >= types.ts.len(),
        forall|i: int|
            0 <= i < rows.len() ==> ((#[trigger] rows[i]) matches Some((d, _))
                ==> !types.hidden[d as int]),
    ensures
        forall|i: int|
            0 <= i < rows.len() ==> #[trigger] document_of(
                w,
                types,
                chosen_of(rows, types.ts.len(), null),
            )(i) == held(row_text(rows[i], types.ts, w)),
{
    reveal(document_of);
    assert forall|i: int| 0 <= i < rows.len() implies #[trigger] document_of(
        w,
        types,
        chosen_of(rows, types.ts.len(), null),
    )(i) == held(row_text(rows[i], types.ts, w)) by {
        assert(rows[i] matches Some((d, _)) ==> !types.hidden[d as int]);
        lemma_document_shown(w, rows, types, null, i);
    }
}

/// Laid out rows are shown row by row.
proof fn lemma_rows_shown(w: WireView, rows: Seq<Row>, types: Types, null: nat, end: int)
    requires
        rows_fit_types(rows, types.ts),
        null >= types.ts.len(),
        forall|i: int|
            0 <= i < rows.len() ==> ((#[trigger] rows[i]) matches Some((d, _))
                ==> !types.hidden[d as int]),
        claim::<Vec<u8>>(rows.len(), w.budget) is Ok,
    ensures
        shows_rows(
            shown_at(
                w,
                rows.len(),
                types,
                Ok((chosen_of(rows, types.ts.len(), null), end)),
            ),
            rows,
            types.ts,
            w,
            end,
        ),
{
    let chosen = chosen_of(rows, types.ts.len(), null);
    lemma_all_documents(w, rows, types, null);
    lemma_table_shows(document_of(w, types, chosen), rows, types.ts, w, end);
    reveal(document_of);
}

// ---------------------------------------------------------------------------
// Variant
// ---------------------------------------------------------------------------

/// One discriminator byte per row, NULL as 255.
pub open spec fn place_bytes(rows: Seq<Row>, null: nat) -> Seq<u8> {
    places_of(rows, null).map_values(|d: nat| d as u8)
}

/// The native form of a `Variant` column: the basic mode word, the prefixes of
/// the types, a discriminator per row, and per type the values of its rows.
pub open spec fn variant_form(rows: Seq<Row>, ts: Seq<Ty>, b: Seq<u8>) -> Seq<u8> {
    le_bytes(0, 8) + field_prefixes(ts) + place_bytes(rows, 255) + b
}

/// A `Variant` column shows every row as the value it was given: for any rows,
/// each a value of one of the types or NULL, laid out as discriminators and
/// then, per type, the values of its rows in row order, the document of row `i`
/// is the JSON text of the value of row `i` and of no other.
#[verifier::rlimit(40)]
pub proof fn law_variant_shows_its_rows(
    w: WireView,
    pos: int,
    rows: Seq<Row>,
    ts: Seq<Ty>,
    m: nat,
    b: Seq<u8>,
)
    requires
        0 < rows.len() <= usize::MAX,
        ts.len() <= MAX_VARIANT_TYPES,
        rows_fit_types(rows, ts),
        all_plain(ts),
        deepest(ts) <= 31,
        laid_out(rows, ts) == Ok::<Seq<u8>, ErrorView>(b),
        stands_at(w.bytes, pos, variant_form(rows, ts, b)),
        rows_total(rows) + deepest(ts) <= m <= usize::MAX,
        affords(w, m),
        claim::<ColumnData>(ts.len(), w.budget) is Ok,
        claim::<Vec<u8>>(rows.len(), w.budget) is Ok,
    ensures
        shows_rows(
            column_at(w, pos, Ty::Variant(ts), rows.len() as u64),
            rows,
            ts,
            w,
            pos + variant_form(rows, ts, b).len(),
        ),
{
    let t = Ty::Variant(ts);
    let n = rows.len();
    let mode = le_bytes(0, 8);
    let pre = field_prefixes(ts);
    let bytes = place_bytes(rows, 255);
    lemma_stands_split(w.bytes, pos, mode + pre + bytes, b);
    lemma_stands_split(w.bytes, pos, mode + pre, bytes);
    lemma_stands_split(w.bytes, pos, mode, pre);
    lemma_pow256();
    law_le_round_trip(0, 8);
    lemma_field_prefixes_back(w, pos + 8, ts, 1);
    let p = pos + 8 + pre.len();
    assert(bytes_at(w.bytes, p, n) == Ok::<(Seq<u8>, int), ErrorView>((bytes, p + n)));
    assert(as_nats(bytes) =~= places_of(rows, 255)) by {
        assert forall|i: int| 0 <= i < n implies #[trigger] as_nats(bytes)[i] == places_of(
            rows,
            255,
        )[i] by {
            assert(rows[i] matches Some((d, v)) ==> d < ts.len() && fits(v, ts[d as int]));
        }
    }
    lemma_shared_out(w, p + n, rows, ts, 255, 1, m, b);
    lemma_rows_shown(w, rows, all_shown(ts), 255, p + n + b.len());
    assert(body_at(nested_reader(w, 1), w, p, t, n as u64) == variant_at(
        nested_reader(w, 1),
        w,
        p,
        n,
        ts,
    )) by {
        reveal(body_at);
    }
}

// ---------------------------------------------------------------------------
// Dynamic
// ---------------------------------------------------------------------------

/// The names as strings, one behind the other.
pub open spec fn name_bytes(names: Seq<Seq<char>>) -> Seq<u8>
    decreases names.len(),
{
    if names.len() == 0 {
        seq![]
    } else {
        name_bytes(names.drop_last()) + string(vstd::utf8::encode_utf8(names.last()))
    }
}

/// Whether all names are within the cap on strings.
pub open spec fn short_names(names: Seq<Seq<char>>) -> bool {
    forall|i: int|
        0 <= i < names.len() ==> vstd::utf8::encode_utf8(#[trigger] names[i]).len()
            <= MAX_STRING_SIZE
}

/// A list of names: their number, then the names.
pub open spec fn list_bytes(names: Seq<Seq<char>>) -> Seq<u8> {
    var_uint(names.len()) + name_bytes(names)
}

/// Whether the names on the wire stand for the types: a spill for strings, any
/// other name for the type it names.
pub open spec fn names_types(names: Seq<Seq<char>>, ts: Seq<Ty>) -> bool {
    &&& names.len() == ts.len()
    &&& forall|i: int|
        0 <= i < names.len() ==> if (#[trigger] names[i]) == "SharedVariant"@ {
            ts[i] == Ty::String
        } else {
            type_of(names[i]) == Some(ts[i])
        }
}

proof fn lemma_name_back(d: Seq<u8>, pos: int, name: Seq<char>)
    requires
        stands_at(d, pos, string(vstd::utf8::encode_utf8(name))),
        vstd::utf8::encode_utf8(name).len() <= MAX_STRING_SIZE,
    ensures
        utf8_string_at(d, pos) == Ok::<(Seq<char>, int), ErrorView>(
            (name, pos + string(vstd::utf8::encode_utf8(name)).len()),
        ),
{
    law_string_round_trip(d, pos, vstd::utf8::encode_utf8(name));
    vstd::utf8::encode_utf8_valid_utf8(name);
    vstd::utf8::encode_utf8_decode_utf8(name);
}

pub proof fn lemma_names_back(d: Seq<u8>, pos: int, names: Seq<Seq<char>>)
    requires
        stands_at(d, pos, name_bytes(names)),
        short_names(names),
    ensures
        many(name_reader(d), pos, names.len()) == Ok::<(Seq<Seq<char>>, int), ErrorView>(
            (names, pos + name_bytes(names).len()),
        ),
    decreases names.len(),
{
    if names.len() > 0 {
        let before = names.drop_last();
        let last = string(vstd::utf8::encode_utf8(names.last()));
        assert forall|i: int| 0 <= i < before.len() implies vstd::utf8::encode_utf8(
            #[trigger] before[i],
        ).len() <= MAX_STRING_SIZE by {
            assert(before[i] == names[i]);
        }
        lemma_stands_split(d, pos, name_bytes(before), last);
        lemma_names_back(d, pos, before);
        assert(vstd::utf8::encode_utf8(names[names.len() - 1]).len() <= MAX_STRING_SIZE);
        lemma_name_back(d, pos + name_bytes(before).len(), names.last());
        assert(before.push(names.last()) =~= names);
    } else {
        assert(names =~= seq![]);
    }
}

proof fn lemma_types_back(d: Seq<u8>, pos: int, names: Seq<Seq<char>>, ts: Seq<Ty>)
    requires
        stands_at(d, pos, name_bytes(names)),
        short_names(names),
        names_types(names, ts),
    ensures
        many(type_reader(d), pos, names.len()) == Ok::<(Seq<Ty>, int), ErrorView>(
            (ts, pos + name_bytes(names).len()),
        ),
    decreases names.len(),
{
    if names.len() > 0 {
        let before = names.drop_last();
        let tb = ts.drop_last();
        let last = string(vstd::utf8::encode_utf8(names.last()));
        assert forall|i: int| 0 <= i < before.len() implies vstd::utf8::encode_utf8(
            #[trigger] before[i],
        ).len() <= MAX_STRING_SIZE by {
            assert(before[i] == names[i]);
        }
        assert forall|i: int| 0 <= i < before.len() implies (if (
        #[trigger] before[i]) == "SharedVariant"@ {
            tb[i] == Ty::String
        } else {
            type_of(before[i]) == Some(tb[i])
        }) by {
            assert(before[i] == names[i]);
            assert(tb[i] == ts[i]);
        }
        lemma_stands_split(d, pos, name_bytes(before), last);
        lemma_types_back(d, pos, before, tb);
        let n = names.len() - 1;
        assert(vstd::utf8::encode_utf8(names[n]).len() <= MAX_STRING_SIZE);
        lemma_name_back(d, pos + name_bytes(before).len(), names.last());
        assert(names[n] == "SharedVariant"@ ==> ts[n] == Ty::String);
        assert(wire_type_of(names[n]) == Ok::<Ty, ErrorView>(ts[n]));
        assert(tb.push(ts.last()) =~= ts);
    } else {
        assert(ts =~= seq![]);
    }
}

/// The discriminators of a flattened column, one byte each.
proof fn lemma_places_back(d: Seq<u8>, pos: int, rows: Seq<Row>, null: nat, n: nat)
    requires
        null <= 255,
        n <= rows.len(),
        forall|i: int|
            0 <= i < rows.len() ==> ((#[trigger] rows[i]) matches Some((d, _)) ==> d <= 255),
        stands_at(d, pos, place_bytes(rows, null)),
    ensures
        many(disc_reader(d, 1), pos, n) == Ok::<(Seq<nat>, int), ErrorView>(
            (places_of(rows, null).take(n as int), pos + n),
        ),
    decreases n,
{
    let places = places_of(rows, null);
    let bytes = place_bytes(rows, null);
    if n > 0 {
        lemma_places_back(d, pos, rows, null, (n - 1) as nat);
        let p = pos + n - 1;
        assert(rows[n - 1] matches Some((d, _)) ==> d <= 255);
        assert(d.subrange(pos, pos + bytes.len())[n - 1] == bytes[n - 1]);
        assert(d[p] == bytes[n - 1]);
        let one = d.subrange(p, p + 1);
        assert(one =~= seq![bytes[n - 1]]);
        assert(le_nat(one) == one[0] + 256 * le_nat(one.drop_first()));
        assert(one.drop_first() =~= seq![]);
        assert(le_nat(one.drop_first()) == 0);
        assert(places.take(n as int) =~= places.take(n - 1).push(places[n - 1]));
    } else {
        assert(places.take(0) =~= seq![]);
    }
}

/// The native form of a flattened `Dynamic` column: its version, the types, a
/// discriminator per row, with the number of types for NULL, and per type the
/// values of its rows.
pub open spec fn flat_form(rows: Seq<Row>, names: Seq<Seq<char>>, b: Seq<u8>) -> Seq<u8> {
    le_bytes(3, 8) + list_bytes(names) + place_bytes(rows, names.len()) + b
}

/// What a column of several types needs of the reader: the values fit their
/// types, the types read back without prefixes of their own, and the buffers
/// stay within the budget.
pub open spec fn readable(w: WireView, rows: Seq<Row>, ts: Seq<Ty>, m: nat) -> bool {
    &&& rows_fit_types(rows, ts)
    &&& all_plain(ts)
    &&& field_prefixes(ts) == Seq::<u8>::empty()
    &&& deepest(ts) <= 31
    &&& rows.len() <= usize::MAX
    &&& rows_total(rows) + deepest(ts) <= m <= usize::MAX
    &&& affords(w, m)
    &&& claim::<ColumnData>(ts.len(), w.budget) is Ok
    &&& claim::<Vec<u8>>(rows.len(), w.budget) is Ok
    &&& claim::<usize>(rows.len(), w.budget) is Ok
}

pub proof fn lemma_flat_types(w: WireView, pos: int, names: Seq<Seq<char>>, ts: Seq<Ty>)
    requires
        names_types(names, ts),
        short_names(names),
        names.len() <= MAX_VARIANT_TYPES,
        stands_at(w.bytes, pos, list_bytes(names)),
        claim::<ColumnType>(names.len(), w.budget) is Ok,
    ensures
        flat_types_at(w, pos) == Ok::<(Seq<Ty>, int), ErrorView>(
            (ts, pos + list_bytes(names).len()),
        ),
{
    let head = var_uint(names.len());
    lemma_stands_split(w.bytes, pos, head, name_bytes(names));
    law_var_uint_round_trip(w.bytes, pos, names.len() as u64);
    lemma_types_back(w.bytes, pos + head.len(), names, ts);
}

/// The rows of a flattened column, shared out.
pub proof fn lemma_flat_chosen(
    w: WireView,
    pos: int,
    rows: Seq<Row>,
    ts: Seq<Ty>,
    m: nat,
    b: Seq<u8>,
)
    requires
        readable(w, rows, ts, m),
        ts.len() <= MAX_VARIANT_TYPES,
        laid_out(rows, ts) == Ok::<Seq<u8>, ErrorView>(b),
        stands_at(w.bytes, pos, place_bytes(rows, ts.len()) + b),
    ensures
        flat_chosen_at(nested_reader(w, 1), w, pos, rows.len(), ts) == Ok::<
            (Chosen, int),
            ErrorView,
        >((chosen_of(rows, ts.len(), ts.len()), pos + rows.len() + b.len())),
{
    let n = rows.len();
    let bytes = place_bytes(rows, ts.len());
    lemma_stands_split(w.bytes, pos, bytes, b);
    assert forall|i: int| 0 <= i < rows.len() implies ((#[trigger] rows[i]) matches Some((d, _))
        ==> d <= 255) by {
        assert(rows[i] matches Some((d, v)) ==> d < ts.len() && fits(v, ts[d as int]));
    }
    lemma_places_back(w.bytes, pos, rows, ts.len(), n);
    assert(places_of(rows, ts.len()).take(n as int) =~= places_of(rows, ts.len()));
    lemma_shared_out(w, pos + n, rows, ts, ts.len(), 1, m, b);
}

proof fn lemma_flat_dynamic(
    w: WireView,
    pos: int,
    rows: Seq<Row>,
    names: Seq<Seq<char>>,
    ts: Seq<Ty>,
    m: nat,
    b: Seq<u8>,
)
    requires
        readable(w, rows, ts, m),
        names_types(names, ts),
        short_names(names),
        names.len() <= MAX_VARIANT_TYPES,
        claim::<ColumnType>(names.len(), w.budget) is Ok,
        laid_out(rows, ts) == Ok::<Seq<u8>, ErrorView>(b),
        stands_at(w.bytes, pos, list_bytes(names) + (place_bytes(rows, names.len()) + b)),
    ensures
        shows_rows(
            dynamic_flat_at(nested_reader(w, 1), w, pos, rows.len()),
            rows,
            ts,
            w,
            pos + list_bytes(names).len() + rows.len() + b.len(),
        ),
{
    let list = list_bytes(names);
    lemma_stands_split(w.bytes, pos, list, place_bytes(rows, names.len()) + b);
    lemma_flat_types(w, pos, names, ts);
    let q = pos + list.len();
    lemma_flat_chosen(w, q, rows, ts, m, b);
    lemma_all_shown(rows, ts);
    lemma_rows_shown(w, rows, all_shown(ts), ts.len(), q + rows.len() + b.len());
}

proof fn lemma_all_shown(rows: Seq<Row>, ts: Seq<Ty>)
    requires
        rows_fit_types(rows, ts),
    ensures
        forall|i: int|
            0 <= i < rows.len() ==> ((#[trigger] rows[i]) matches Some((d, _)) ==> !all_shown(
                ts,
            ).hidden[d as int]),
{
    assert forall|i: int| 0 <= i < rows.len() implies ((#[trigger] rows[i]) matches Some((d, _))
        ==> !all_shown(ts).hidden[d as int]) by {
        assert(rows[i] matches Some((d, v)) ==> d < ts.len() && fits(v, ts[d as int]));
    }
}

/// A flattened `Dynamic` column shows every row as the value it was given.
#[verifier::rlimit(40)]
pub proof fn law_flat_dynamic_shows_its_rows(
    w: WireView,
    pos: int,
    rows: Seq<Row>,
    names: Seq<Seq<char>>,
    ts: Seq<Ty>,
    m: nat,
    b: Seq<u8>,
)
    requires
        rows.len() > 0,
        readable(w, rows, ts, m),
        names_types(names, ts),
        short_names(names),
        names.len() <= MAX_VARIANT_TYPES,
        claim::<ColumnType>(names.len(), w.budget) is Ok,
        laid_out(rows, ts) == Ok::<Seq<u8>, ErrorView>(b),
        stands_at(w.bytes, pos, flat_form(rows, names, b)),
    ensures
        shows_rows(
            column_at(w, pos, Ty::Dynamic, rows.len() as u64),
            rows,
            ts,
            w,
            pos + flat_form(rows, names, b).len(),
        ),
{
    let n = rows.len();
    let head = le_bytes(3, 8);
    let rest = list_bytes(names) + (place_bytes(rows, names.len()) + b);
    assert(flat_form(rows, names, b) =~= head + rest);
    lemma_stands_split(w.bytes, pos, head, rest);
    lemma_pow256();
    law_le_round_trip(3, 8);
    lemma_flat_dynamic(w, pos + 8, rows, names, ts, m, b);
    lemma_dynamic_column(w, pos, n as u64);
    assert(dynamic_at(nested_reader(w, 1), w, pos, n) == dynamic_flat_at(
        nested_reader(w, 1),
        w,
        pos + 8,
        n,
    ));
}

/// A `Dynamic` column has no prefix of its own.
proof fn lemma_dynamic_column(w: WireView, pos: int, n: u64)
    requires
        0 < n <= usize::MAX,
    ensures
        column_at(w, pos, Ty::Dynamic, n) == dynamic_at(nested_reader(w, 1), w, pos, n as nat),
{
    assert(body_at(nested_reader(w, 1), w, pos, Ty::Dynamic, n) == dynamic_at(
        nested_reader(w, 1),
        w,
        pos,
        n as nat,
    )) by {
        reveal(body_at);
    }
}

/// The prefix of a `Dynamic` column with a spill: where `limit` is given, a
/// number that is not used; then the types and the basic mode word.
pub open spec fn spill_prefix(names: Seq<Seq<char>>, limit: Option<u64>) -> Seq<u8> {
    (match limit {
        Some(k) => var_uint(k as nat),
        None => seq![],
    }) + list_bytes(names) + le_bytes(0, 8)
}

pub proof fn lemma_spill_prefix(
    w: WireView,
    pos: int,
    names: Seq<Seq<char>>,
    limit: Option<u64>,
)
    requires
        short_names(names),
        names.len() <= 254,
        stands_at(w.bytes, pos, spill_prefix(names, limit)),
        claim::<String>(names.len() + 1, w.budget) is Ok,
    ensures
        dynamic_names_at(w, pos, limit is Some) == Ok::<(Seq<Seq<char>>, int), ErrorView>(
            (sorted(names.push("SharedVariant"@)), pos + spill_prefix(names, limit).len()),
        ),
{
    let first = match limit {
        Some(k) => var_uint(k as nat),
        None => seq![],
    };
    let head = var_uint(names.len());
    let mode = le_bytes(0, 8);
    lemma_stands_split(w.bytes, pos, first + list_bytes(names), mode);
    lemma_stands_split(w.bytes, pos, first, list_bytes(names));
    if let Some(k) = limit {
        law_var_uint_round_trip(w.bytes, pos, k);
    }
    let p = pos + first.len();
    lemma_stands_split(w.bytes, p, head, name_bytes(names));
    law_var_uint_round_trip(w.bytes, p, names.len() as u64);
    lemma_names_back(w.bytes, p + head.len(), names);
    lemma_pow256();
    law_le_round_trip(0, 8);
}

/// The types of names, spills hidden.
pub open spec fn spill_types(all: Seq<Seq<char>>, ts: Seq<Ty>) -> Types {
    Types { ts, hidden: all.map_values(|s: Seq<char>| s == "SharedVariant"@) }
}

pub proof fn lemma_wire_types(all: Seq<Seq<char>>, ts: Seq<Ty>)
    requires
        names_types(all, ts),
    ensures
        wire_types(all) == Ok::<Types, ErrorView>(spill_types(all, ts)),
{
    let f = name_type(all);
    lemma_table(f, all.len());
    assert forall|i: int| 0 <= i < all.len() implies #[trigger] f(i) == Ok::<Ty, ErrorView>(
        ts[i],
    ) by {
        assert(all[i] == "SharedVariant"@ ==> ts[i] == Ty::String);
    }
    match table(f, all.len()) {
        Ok(xs) => {
            assert(xs =~= ts) by {
                assert forall|i: int| 0 <= i < ts.len() implies xs[i] == ts[i] by {
                    assert(f(i) == Ok::<Ty, ErrorView>(xs[i]));
                }
            }
        },
        Err(e) => {
            let i = choose|i: int|
                0 <= i < all.len() && #[trigger] f(i) == Err::<Ty, ErrorView>(e);
            assert(f(i) == Ok::<Ty, ErrorView>(ts[i]));
        },
    }
}

/// Whether no row is a spill.
pub open spec fn none_spilled(rows: Seq<Row>, all: Seq<Seq<char>>) -> bool {
    forall|i: int|
        0 <= i < rows.len() ==> ((#[trigger] rows[i]) matches Some((d, _)) ==> all[d as int]
            != "SharedVariant"@)
}

pub proof fn lemma_spill_chosen(
    w: WireView,
    pos: int,
    rows: Seq<Row>,
    ts: Seq<Ty>,
    m: nat,
    b: Seq<u8>,
)
    requires
        readable(w, rows, ts, m),
        ts.len() <= 255,
        laid_out(rows, ts) == Ok::<Seq<u8>, ErrorView>(b),
        stands_at(w.bytes, pos, place_bytes(rows, 255) + b),
    ensures
        chosen_at(nested_reader(w, 1), w, pos, rows.len(), ts) == Ok::<(Chosen, int), ErrorView>(
            (chosen_of(rows, ts.len(), 255), pos + rows.len() + b.len()),
        ),
{
    let n = rows.len();
    let bytes = place_bytes(rows, 255);
    lemma_stands_split(w.bytes, pos, bytes, b);
    assert(as_nats(bytes) =~= places_of(rows, 255)) by {
        assert forall|i: int| 0 <= i < n implies #[trigger] as_nats(bytes)[i] == places_of(
            rows,
            255,
        )[i] by {
            assert(rows[i] matches Some((d, v)) ==> d < ts.len() && fits(v, ts[d as int]));
        }
    }
    lemma_shared_out(w, pos + n, rows, ts, 255, 1, m, b);
}

/// The native form of a `Dynamic` column with a spill: its version, 1 where a
/// limit is given and 2 where none is, the prefix, and the rows by the places of
/// their types in the sorted list, NULL as 255.
pub open spec fn spill_form(
    rows: Seq<Row>,
    names: Seq<Seq<char>>,
    limit: Option<u64>,
    b: Seq<u8>,
) -> Seq<u8> {
    le_bytes(
        if limit is Some {
            1
        } else {
            2
        },
        8,
    ) + spill_prefix(names, limit) + (place_bytes(rows, 255) + b)
}

/// A `Dynamic` column with a spill shows every row as the value it was given.
#[verifier::rlimit(40)]
pub proof fn law_dynamic_shows_its_rows(
    w: WireView,
    pos: int,
    rows: Seq<Row>,
    names: Seq<Seq<char>>,
    limit: Option<u64>,
    ts: Seq<Ty>,
    m: nat,
    b: Seq<u8>,
)
    requires
        rows.len() > 0,
        readable(w, rows, ts, m),
        names_types(sorted(names.push("SharedVariant"@)), ts),
        none_spilled(rows, sorted(names.push("SharedVariant"@))),
        short_names(names),
        names.len() <= 254,
        claim::<String>(names.len() + 1, w.budget) is Ok,
        laid_out(rows, ts) == Ok::<Seq<u8>, ErrorView>(b),
        stands_at(w.bytes, pos, spill_form(rows, names, limit, b)),
    ensures
        shows_rows(
            column_at(w, pos, Ty::Dynamic, rows.len() as u64),
            rows,
            ts,
            w,
            pos + spill_form(rows, names, limit, b).len(),
        ),
{
    let n = rows.len();
    let all = sorted(names.push("SharedVariant"@));
    let version: nat = if limit is Some {
        1
    } else {
        2
    };
    let head = le_bytes(version, 8);
    let pre = spill_prefix(names, limit);
    lemma_stands_split(w.bytes, pos, head + pre, place_bytes(rows, 255) + b);
    lemma_stands_split(w.bytes, pos, head, pre);
    lemma_pow256();
    law_le_round_trip(version, 8);
    lemma_spill_prefix(w, pos + 8, names, limit);
    lemma_wire_types(all, ts);
    law_names_are_sorted(names.push("SharedVariant"@));
    assert(ts.len() == names.len() + 1);
    let q = pos + 8 + pre.len();
    lemma_spill_chosen(w, q, rows, ts, m, b);
    let types = spill_types(all, ts);
    assert forall|i: int| 0 <= i < rows.len() implies ((#[trigger] rows[i]) matches Some((d, _))
        ==> !types.hidden[d as int]) by {
        assert(rows[i] matches Some((d, v)) ==> d < ts.len() && fits(v, ts[d as int]));
        assert(rows[i] matches Some((d, _)) ==> all[d as int] != "SharedVariant"@);
    }
    lemma_rows_shown(w, rows, types, 255, q + n + b.len());
    lemma_dynamic_column(w, pos, n as u64);
}

// ---------------------------------------------------------------------------
// Spills
// ---------------------------------------------------------------------------

/// A value of a hidden type is not shown: the document of its row is `null`,
/// and an object has no member for it.
pub proof fn law_hidden_values_are_not_shown(
    w: WireView,
    names: Seq<Seq<char>>,
    types: Seq<Types>,
    chosen: Seq<Chosen>,
    i: int,
    j: int,
)
    requires
        chosen[j].discs[i] < types[j].ts.len(),
        types[j].hidden[chosen[j].discs[i] as int],
    ensures
        document(w, types[j], chosen[j])(i) == Ok::<Seq<u8>, ErrorView>(
            string(seq![110u8, 117u8, 108u8, 108u8]),
        ),
        member(w, names, types, chosen, i, j) == Ok::<Option<Seq<u8>>, ErrorView>(None),
{
    assert(null_text() =~= seq![110u8, 117u8, 108u8, 108u8]);
}

/// Of the types on the wire exactly the spills are hidden.
pub proof fn law_spills_are_hidden(all: Seq<Seq<char>>, ts: Seq<Ty>, i: int)
    requires
        names_types(all, ts),
        0 <= i < all.len(),
    ensures
        wire_types(all) matches Ok(types) && types.ts == ts && types.hidden.len() == all.len() && (
        types.hidden[i] <==> all[i] == "SharedVariant"@),
{
    lemma_wire_types(all, ts);
}

} // verus!
