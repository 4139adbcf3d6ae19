//! The rows of the dynamic encoder are rows that the Native block encoder
//! takes: what one writes for a column is what the other reads as a value of
//! its type.

use vstd::prelude::*;

use crate::dynamic::answers::{entry_of, AnswersView};
use crate::dynamic::encode::{
    column_bytes, default_bytes, entries_bytes, integer_bytes, items_bytes, json_text, number_bytes,
    resolved, row_wire, signed_256, signed_le, text_bytes, typed_bytes, unsigned_256, value_at,
    value_bytes, ColumnView,
};
use crate::dynamic::error::DynamicErrorView;
use crate::dynamic::parsed_type::{byte_size, Parsed, TypeTag};
use crate::dynamic::value::{plain_text, Json};
use crate::error::ErrorView;
use crate::native::columns::{fixed_size, Ty};
use crate::native::encode::{fields_at, rb_end, rb_run_end, row_of};
use crate::native::io::{
    law_var_uint_round_trip, le_bytes, lemma_le_bytes_len, lemma_stands_split, stands_at, string,
    var_uint,
};

verus! {

// ---------------------------------------------------------------------------
// Values
// ---------------------------------------------------------------------------

/// Whether every array and object within `v` has a length that a `VarUInt`
/// carries.
pub open spec fn countable(v: Json) -> bool
    decreases v,
{
    match v {
        Json::Array(vs) => vs.len() <= u64::MAX && all_countable(vs),
        Json::Object(es) => es.len() <= u64::MAX && entries_countable(es),
        _ => true,
    }
}

/// Whether all of `vs` are countable.
pub open spec fn all_countable(vs: Seq<Json>) -> bool
    decreases vs,
{
    vs.len() == 0 || (all_countable(vs.subrange(0, vs.len() - 1)) && countable(vs[vs.len() - 1]))
}

/// Whether the values of all of `es` are countable.
pub open spec fn entries_countable(es: Seq<(Seq<char>, Json)>) -> bool
    decreases es,
{
    es.len() == 0 || (entries_countable(es.subrange(0, es.len() - 1)) && countable(
        es[es.len() - 1].1,
    ))
}

/// Whether the addresses among the answers have sixteen octets.
pub open spec fn sound(a: AnswersView) -> bool {
    forall|i: int|
        0 <= i < a.addresses.len() ==> ((#[trigger] a.addresses[i]).1 matches Some(o) ==> o.len()
            == 16)
}

proof fn lemma_address_len(entries: Seq<(Seq<char>, Option<Seq<u8>>)>, text: Seq<char>)
    requires
        forall|i: int|
            0 <= i < entries.len() ==> ((#[trigger] entries[i]).1 matches Some(o) ==> o.len()
                == 16),
    ensures
        entry_of(entries, text) matches Some(Some(o)) ==> o.len() == 16,
    decreases entries.len(),
{
    if entries.len() > 0 {
        let before = entries.drop_last();
        assert forall|i: int| 0 <= i < before.len() implies ((#[trigger] before[i]).1 matches Some(
            o,
        ) ==> o.len() == 16) by {
            assert(entries[i] == before[i]);
        }
        lemma_address_len(before, text);
        assert(entries[entries.len() - 1] == entries.last());
    }
}

/// How many bytes every value of a type takes.
pub open spec fn width_of(t: Parsed) -> Option<nat> {
    match resolved(t) {
        TypeTag::Decimal32 => Some(4),
        TypeTag::Decimal64 => Some(8),
        TypeTag::Decimal128 => Some(16),
        TypeTag::Decimal256 => Some(32),
        TypeTag::Point => None,
        TypeTag::FixedString => match t.fixed_size {
            Some(n) => Some(n as nat),
            None => None,
        },
        _ => match byte_size(t) {
            Some(n) => Some(n as nat),
            None => None,
        },
    }
}

proof fn lemma_default_len(t: Parsed)
    requires
        width_of(t) is Some,
    ensures
        default_bytes(t).len() == width_of(t)->Some_0,
{
}

proof fn lemma_le_lens(n: nat)
    ensures
        forall|u: nat| #[trigger] le_bytes(u, n).len() == n,
        forall|i: int| #[trigger] signed_le(i, n).len() == n,
{
    assert forall|u: nat| #[trigger] le_bytes(u, n).len() == n by {
        lemma_le_bytes_len(u, n);
    }
}

proof fn lemma_wide_lens()
    ensures
        forall|u: nat| #[trigger] unsigned_256(u).len() == 32,
        forall|i: int| #[trigger] signed_256(i).len() == 32,
{
    lemma_le_lens(16);
}

proof fn lemma_integer_len(v: Json, t: Parsed, col: Seq<char>)
    requires
        t.base != "Decimal"@,
    ensures
        integer_bytes(v, t.tag, col) matches Some(Ok(b)) ==> width_of(t) == Some(b.len()),
{
    lemma_le_lens(1);
    lemma_le_lens(2);
    lemma_le_lens(4);
    lemma_le_lens(8);
    lemma_le_lens(16);
    lemma_wide_lens();
}

proof fn lemma_number_len(v: Json, t: Parsed, col: Seq<char>, a: AnswersView)
    ensures
        number_bytes(v, resolved(t), t, col, a) matches Some(Ok(b)) ==> width_of(t) == Some(
            b.len(),
        ),
{
    lemma_le_lens(1);
    lemma_le_lens(2);
    lemma_le_lens(4);
    lemma_le_lens(8);
    lemma_le_lens(16);
    lemma_wide_lens();
}

proof fn lemma_text_len(v: Json, t: Parsed, col: Seq<char>, a: AnswersView)
    requires
        sound(a),
        width_of(t) is Some,
    ensures
        text_bytes(v, resolved(t), t, col, a) matches Some(Ok(b)) ==> width_of(t) == Some(b.len()),
{
    lemma_le_lens(4);
    lemma_le_lens(8);
    lemma_address_len(a.addresses, plain_text(v));
}

/// What is written for a type of fixed width has that width.
proof fn lemma_typed_len(v: Json, t: Parsed, col: Seq<char>, a: AnswersView)
    requires
        sound(a),
        width_of(t) is Some,
    ensures
        typed_bytes(v, t, col, a) matches Ok(b) ==> width_of(t) == Some(b.len()),
{
    if t.base != "Decimal"@ {
        lemma_integer_len(v, t, col);
    }
    lemma_number_len(v, t, col, a);
    lemma_text_len(v, t, col, a);
}

/// What is written for a type of fixed size has that size, whatever the value,
/// and so has what stands for a missing one.
pub proof fn law_values_fill_their_size(v: Json, t: Parsed, col: Seq<char>, a: AnswersView)
    requires
        sound(a),
        t.base != "Decimal"@,
        !(t.tag is Point),
    ensures
        byte_size(t) matches Some(n) ==> (typed_bytes(v, t, col, a) matches Ok(b) ==> b.len() == n),
        byte_size(t) matches Some(n) ==> default_bytes(t).len() == n,
        byte_size(t) is None ==> (t.tag is String || t.tag is JSON || t.tag is Array
            || t.tag is Mapping || t.tag is Tuple || t.tag is Unknown || (t.tag is FixedString
            && t.fixed_size is None)),
{
    if byte_size(t) is Some {
        lemma_typed_len(v, t, col, a);
        lemma_default_len(t);
    }
}

/// Whether values of `t` are written as strings.
pub open spec fn is_text(t: Ty) -> bool
    decreases t,
{
    match t {
        Ty::String => true,
        Ty::LowCardinality(x) => is_text(*x),
        _ => false,
    }
}

/// Whether the row encoder writes for `t` what the block encoder reads as `ty`.
pub open spec fn describes(t: Parsed, ty: Ty) -> bool
    decreases ty,
{
    match ty {
        Ty::Nullable(x) => t.nullable && describes(Parsed { nullable: false, ..t }, *x),
        Ty::LowCardinality(x) => describes(t, *x),
        Ty::Array(x) => !t.nullable && resolved(t) is Array && (t.array_element matches Some(e)
            && describes(*e, *x)),
        Ty::Mapping(k, v) => !t.nullable && resolved(t) is Mapping && is_text(*k) && (
        t.map_types matches Some((_, e)) && describes(*e, *v)),
        Ty::String => !t.nullable && resolved(t) is String,
        Ty::NewJson => !t.nullable && resolved(t) is JSON,
        _ => !t.nullable && width_of(t) is Some && fixed_size(ty) is Some && width_of(t)->Some_0
            == fixed_size(ty)->Some_0,
    }
}

/// The not-null marker does not matter to how a value is written.
proof fn lemma_marker_aside(v: Json, t: Parsed, col: Seq<char>, a: AnswersView)
    ensures
        typed_bytes(v, Parsed { nullable: false, ..t }, col, a) == typed_bytes(v, t, col, a),
{
    let u = Parsed { nullable: false, ..t };
    assert(resolved(u) == resolved(t));
    assert(number_bytes(v, resolved(u), u, col, a) == number_bytes(v, resolved(t), t, col, a));
    assert(text_bytes(v, resolved(u), u, col, a) == text_bytes(v, resolved(t), t, col, a));
}

proof fn lemma_string_ends(d: Seq<u8>, pos: int, s: Seq<u8>, t: Ty)
    requires
        stands_at(d, pos, string(s)),
        d.len() <= u64::MAX,
        is_text(t) || t is NewJson,
    ensures
        rb_end(d, pos, t) == Ok::<int, ErrorView>(pos + string(s).len()),
    decreases t,
{
    if let Ty::LowCardinality(x) = t {
        lemma_string_ends(d, pos, s, *x);
    } else {
        lemma_stands_split(d, pos, var_uint(s.len()), s);
        law_var_uint_round_trip(d, pos, s.len() as u64);
    }
}

/// An empty string, array or map.
proof fn lemma_zero_ends(d: Seq<u8>, pos: int, t: Ty)
    requires
        stands_at(d, pos, seq![0u8]),
        t is String || t is Array || t is Mapping,
    ensures
        rb_end(d, pos, t) == Ok::<int, ErrorView>(pos + 1),
{
    assert(var_uint(0) =~= seq![0u8]);
    law_var_uint_round_trip(d, pos, 0);
    assert(rb_run_end(d, pos + 1, t, 0) == Ok::<int, ErrorView>(pos + 1));
}

/// Where what is written for a value ends, the block encoder sees the value of
/// its type end.
proof fn lemma_value_ends(
    d: Seq<u8>,
    pos: int,
    v: Json,
    t: Parsed,
    ty: Ty,
    col: Seq<char>,
    a: AnswersView,
    b: Seq<u8>,
)
    requires
        describes(t, ty),
        countable(v),
        sound(a),
        value_bytes(v, t, col, a) == Ok::<Seq<u8>, DynamicErrorView>(b),
        stands_at(d, pos, b),
        d.len() <= u64::MAX,
    ensures
        rb_end(d, pos, ty) == Ok::<int, ErrorView>(pos + b.len()),
    decreases ty, 2nat, 0nat,
{
    match ty {
        Ty::Nullable(x) => {
            if v is Null {
                assert(d[pos] == d.subrange(pos, pos + 1)[0]);
            } else {
                let u = Parsed { nullable: false, ..t };
                let rest = typed_bytes(v, t, col, a)->Ok_0;
                lemma_marker_aside(v, t, col, a);
                lemma_stands_split(d, pos, seq![0u8], rest);
                assert(d[pos] == d.subrange(pos, pos + 1)[0]);
                lemma_value_ends(d, pos + 1, v, u, *x, col, a, rest);
            }
        },
        Ty::LowCardinality(x) => {
            lemma_value_ends(d, pos, v, t, *x, col, a, b);
        },
        Ty::Array(x) => {
            if v is Null {
                lemma_zero_ends(d, pos, ty);
            } else {
                let e = *t.array_element->Some_0;
                let vs = v->Array_0;
                let rest = items_bytes(vs, e, col, a)->Ok_0;
                lemma_stands_split(d, pos, var_uint(vs.len()), rest);
                law_var_uint_round_trip(d, pos, vs.len() as u64);
                lemma_items_end(d, pos + var_uint(vs.len()).len(), vs, e, *x, col, a, rest);
            }
        },
        Ty::Mapping(k, x) => {
            if v is Null {
                lemma_zero_ends(d, pos, ty);
            } else {
                let e = *t.map_types->Some_0.1;
                let es = v->Object_0;
                let rest = entries_bytes(es, e, col, a)->Ok_0;
                lemma_stands_split(d, pos, var_uint(es.len()), rest);
                law_var_uint_round_trip(d, pos, es.len() as u64);
                lemma_entries_end(d, pos + var_uint(es.len()).len(), es, e, *k, *x, col, a, rest);
            }
        },
        Ty::String => {
            if v is Null {
                lemma_zero_ends(d, pos, ty);
            } else {
                lemma_string_ends(d, pos, vstd::utf8::encode_utf8(plain_text(v)), ty);
            }
        },
        Ty::NewJson => {
            if v is Null {
                lemma_string_ends(d, pos, vstd::utf8::encode_utf8("{}"@), ty);
            } else {
                lemma_string_ends(
                    d,
                    pos,
                    vstd::utf8::encode_utf8(json_text(v)),
                    ty,
                );
            }
        },
        _ => {
            lemma_default_len(t);
            lemma_typed_len(v, t, col, a);
        },
    }
}

proof fn lemma_items_end(
    d: Seq<u8>,
    pos: int,
    vs: Seq<Json>,
    t: Parsed,
    x: Ty,
    col: Seq<char>,
    a: AnswersView,
    b: Seq<u8>,
)
    requires
        describes(t, x),
        all_countable(vs),
        sound(a),
        items_bytes(vs, t, col, a) == Ok::<Seq<u8>, DynamicErrorView>(b),
        stands_at(d, pos, b),
        d.len() <= u64::MAX,
    ensures
        rb_run_end(d, pos, Ty::Array(Box::new(x)), vs.len()) == Ok::<int, ErrorView>(
            pos + b.len(),
        ),
    decreases x, 3nat, vs.len(),
{
    if vs.len() > 0 {
        let before = vs.drop_last();
        assert(before =~= vs.subrange(0, vs.len() - 1));
        let b1 = items_bytes(before, t, col, a)->Ok_0;
        let b2 = value_bytes(vs.last(), t, col, a)->Ok_0;
        lemma_stands_split(d, pos, b1, b2);
        lemma_items_end(d, pos, before, t, x, col, a, b1);
        lemma_value_ends(d, pos + b1.len(), vs.last(), t, x, col, a, b2);
    }
}

proof fn lemma_entries_end(
    d: Seq<u8>,
    pos: int,
    es: Seq<(Seq<char>, Json)>,
    t: Parsed,
    k: Ty,
    x: Ty,
    col: Seq<char>,
    a: AnswersView,
    b: Seq<u8>,
)
    requires
        describes(t, x),
        is_text(k),
        entries_countable(es),
        sound(a),
        entries_bytes(es, t, col, a) == Ok::<Seq<u8>, DynamicErrorView>(b),
        stands_at(d, pos, b),
        d.len() <= u64::MAX,
    ensures
        rb_run_end(d, pos, Ty::Mapping(Box::new(k), Box::new(x)), es.len()) == Ok::<
            int,
            ErrorView,
        >(pos + b.len()),
    decreases x, 3nat, es.len(),
{
    if es.len() > 0 {
        let before = es.drop_last();
        assert(before =~= es.subrange(0, es.len() - 1));
        let b1 = entries_bytes(before, t, col, a)->Ok_0;
        let key = vstd::utf8::encode_utf8(es.last().0);
        let b2 = value_bytes(es.last().1, t, col, a)->Ok_0;
        lemma_stands_split(d, pos, b1 + string(key), b2);
        lemma_stands_split(d, pos, b1, string(key));
        lemma_entries_end(d, pos, before, t, k, x, col, a, b1);
        lemma_string_ends(d, pos + b1.len(), key, k);
        lemma_value_ends(
            d,
            pos + b1.len() + string(key).len(),
            es.last().1,
            t,
            x,
            col,
            a,
            b2,
        );
    }
}

// ---------------------------------------------------------------------------
// Rows
// ---------------------------------------------------------------------------

/// Whether the value of every entry of a row is countable.
pub open spec fn row_countable(row: Seq<(Seq<char>, Json)>) -> bool {
    forall|i: int| 0 <= i < row.len() ==> countable((#[trigger] row[i]).1)
}

proof fn lemma_member_countable(row: Seq<(Seq<char>, Json)>, name: Seq<char>)
    requires
        row_countable(row),
    ensures
        countable(value_at(row, name)),
    decreases row.len(),
{
    if row.len() > 0 {
        let before = row.drop_last();
        assert forall|i: int| 0 <= i < before.len() implies countable((#[trigger] before[i]).1) by {
            assert(countable(row[i].1));
        }
        lemma_member_countable(before, name);
        assert(countable(row[row.len() - 1].1));
    }
}

/// Whether the block encoder reads as `ty` what the row encoder writes for
/// column `c`. Raw bytes are written as a string.
pub open spec fn column_describes(
    c: ColumnView,
    raw: Option<(Seq<char>, Seq<u8>)>,
    ty: Ty,
) -> bool {
    &&& describes(c.ty, ty)
    &&& (raw matches Some((name, _)) && name == c.name) ==> (if c.ty.nullable {
        ty matches Ty::Nullable(x) && (is_text(*x) || *x is NewJson)
    } else {
        is_text(ty) || ty is NewJson
    })
}

proof fn lemma_column_ends(
    d: Seq<u8>,
    pos: int,
    row: Seq<(Seq<char>, Json)>,
    c: ColumnView,
    raw: Option<(Seq<char>, Seq<u8>)>,
    ty: Ty,
    a: AnswersView,
    b: Seq<u8>,
)
    requires
        column_describes(c, raw, ty),
        row_countable(row),
        sound(a),
        column_bytes(row, c, raw, a) == Ok::<Seq<u8>, DynamicErrorView>(b),
        stands_at(d, pos, b),
        d.len() <= u64::MAX,
    ensures
        rb_end(d, pos, ty) == Ok::<int, ErrorView>(pos + b.len()),
{
    match raw {
        Some((name, bytes)) if name == c.name => {
            if c.ty.nullable {
                lemma_stands_split(d, pos, seq![0u8], string(bytes));
                assert(d[pos] == d.subrange(pos, pos + 1)[0]);
                lemma_string_ends(d, pos + 1, bytes, *ty->Nullable_0);
            } else {
                lemma_string_ends(d, pos, bytes, ty);
            }
        },
        _ => {
            lemma_member_countable(row, c.name);
            lemma_value_ends(d, pos, value_at(row, c.name), c.ty, ty, c.name, a, b);
        },
    }
}

/// The cells of a row.
pub open spec fn row_cells(
    row: Seq<(Seq<char>, Json)>,
    columns: Seq<ColumnView>,
    raw: Option<(Seq<char>, Seq<u8>)>,
    a: AnswersView,
) -> Seq<Seq<u8>> {
    columns.map_values(|c: ColumnView| column_bytes(row, c, raw, a)->Ok_0)
}

proof fn lemma_row_splits(
    d: Seq<u8>,
    row: Seq<(Seq<char>, Json)>,
    columns: Seq<ColumnView>,
    raw: Option<(Seq<char>, Seq<u8>)>,
    tys: Seq<Ty>,
    a: AnswersView,
    b: Seq<u8>,
)
    requires
        columns.len() == tys.len(),
        forall|i: int|
            0 <= i < columns.len() ==> column_describes(#[trigger] columns[i], raw, tys[i]),
        row_countable(row),
        sound(a),
        row_wire(row, columns, raw, a) == Ok::<Seq<u8>, DynamicErrorView>(b),
        stands_at(d, 0, b),
        d.len() <= u64::MAX,
    ensures
        fields_at(d, tys) == Ok::<(Seq<Seq<u8>>, int), ErrorView>(
            (row_cells(row, columns, raw, a), b.len() as int),
        ),
    decreases columns.len(),
{
    if columns.len() > 0 {
        let n = columns.len() - 1;
        let before = columns.drop_last();
        let b1 = row_wire(row, before, raw, a)->Ok_0;
        let b2 = column_bytes(row, columns.last(), raw, a)->Ok_0;
        lemma_stands_split(d, 0, b1, b2);
        assert forall|i: int| 0 <= i < before.len() implies column_describes(
            #[trigger] before[i],
            raw,
            tys.drop_last()[i],
        ) by {
            assert(column_describes(columns[i], raw, tys[i]));
        }
        lemma_row_splits(d, row, before, raw, tys.drop_last(), a, b1);
        assert(column_describes(columns[n], raw, tys[n]));
        lemma_column_ends(d, b1.len() as int, row, columns.last(), raw, tys.last(), a, b2);
        assert(row_cells(row, columns, raw, a) =~= row_cells(row, before, raw, a).push(b2));
    } else {
        assert(row_cells(row, columns, raw, a) =~= seq![]);
    }
}

/// A row that the dynamic encoder writes is one that the Native block encoder
/// takes: it splits, to its last byte, into the cells of its columns.
pub proof fn law_rows_suit_blocks(
    row: Seq<(Seq<char>, Json)>,
    columns: Seq<ColumnView>,
    raw: Option<(Seq<char>, Seq<u8>)>,
    tys: Seq<Ty>,
    a: AnswersView,
    b: Seq<u8>,
)
    requires
        columns.len() == tys.len(),
        forall|i: int|
            0 <= i < columns.len() ==> column_describes(#[trigger] columns[i], raw, tys[i]),
        row_countable(row),
        sound(a),
        row_wire(row, columns, raw, a) == Ok::<Seq<u8>, DynamicErrorView>(b),
        b.len() <= u64::MAX,
    ensures
        row_of(tys)(b) == Ok::<Seq<Seq<u8>>, ErrorView>(row_cells(row, columns, raw, a)),
{
    assert(b.subrange(0, b.len() as int) =~= b);
    lemma_row_splits(b, row, columns, raw, tys, a, b);
}

} // verus!
