//! What is refused, and what is taken where a type leaves something unsaid.

use vstd::prelude::*;
use vstd::string::*;

use crate::dynamic::answers::AnswersView;
use crate::dynamic::encode::{
    column_bytes, entries_bytes, integer_bytes, integer_range, items_bytes, number_bytes, resolved,
    row_wire, text_bytes, typed_bytes, value_at, value_bytes, ColumnView,
};
use crate::dynamic::error::DynamicErrorView;
use crate::dynamic::parsed_type::{Parsed, TypeTag};
use crate::dynamic::scalars::enum_of;
use crate::dynamic::value::{Json, NumberView};
use crate::dynamic::value_laws::{
    integer_text, law_integers_of_numbers, law_number_texts_are_numbers,
};
use crate::dynamic::wire_laws::{law_a_row_is_its_columns, lemma_integer_back};
use crate::native::io::{le_nat, lemma_pow256, twos};

verus! {

/// Whether an error is about column `col`, or asks the caller a question.
pub open spec fn is_about(e: DynamicErrorView, col: Seq<char>) -> bool {
    match e {
        DynamicErrorView::EncodingError { column, .. } => column == col,
        DynamicErrorView::UnsupportedType { column, .. } => column == col,
        DynamicErrorView::AnswerNeeded(_) => true,
        _ => false,
    }
}

/// Whether the outcome is a form or an error about column `col`.
pub open spec fn settled(r: Result<Seq<u8>, DynamicErrorView>, col: Seq<char>) -> bool {
    match r {
        Ok(_) => true,
        Err(e) => is_about(e, col),
    }
}

/// [`settled`], where there is an outcome.
pub open spec fn maybe_settled(
    r: Option<Result<Seq<u8>, DynamicErrorView>>,
    col: Seq<char>,
) -> bool {
    match r {
        Some(x) => settled(x, col),
        None => true,
    }
}

proof fn lemma_integers_settled(v: Json, tag: TypeTag, col: Seq<char>)
    ensures
        maybe_settled(integer_bytes(v, tag, col), col),
{
}

proof fn lemma_numbers_settled(v: Json, tag: TypeTag, t: Parsed, col: Seq<char>, a: AnswersView)
    ensures
        maybe_settled(number_bytes(v, tag, t, col, a), col),
{
}

proof fn lemma_texts_settled(v: Json, tag: TypeTag, t: Parsed, col: Seq<char>, a: AnswersView)
    ensures
        maybe_settled(text_bytes(v, tag, t, col, a), col),
{
}

/// A value that is refused is refused in the name of its column, however deep
/// it stands in an array or a map; the rest are questions to the caller.
pub proof fn law_refusals_name_their_column(v: Json, t: Parsed, col: Seq<char>, a: AnswersView)
    ensures
        value_bytes(v, t, col, a) matches Err(e) ==> is_about(e, col),
        typed_bytes(v, t, col, a) matches Err(e) ==> is_about(e, col),
    decreases t, 1nat, 0nat,
{
    let tag = resolved(t);
    lemma_integers_settled(v, tag, col);
    lemma_numbers_settled(v, tag, t, col, a);
    lemma_texts_settled(v, tag, t, col, a);
    if let Some(x) = t.array_element {
        if let Json::Array(vs) = v {
            lemma_items_settled(vs, *x, col, a);
        }
    }
    if let Some((_, x)) = t.map_types {
        if let Json::Object(es) = v {
            lemma_entries_settled(es, *x, col, a);
        }
    }
}

proof fn lemma_items_settled(vs: Seq<Json>, t: Parsed, col: Seq<char>, a: AnswersView)
    ensures
        settled(items_bytes(vs, t, col, a), col),
    decreases t, 2nat, vs.len(),
{
    if vs.len() > 0 {
        lemma_items_settled(vs.drop_last(), t, col, a);
        law_refusals_name_their_column(vs.last(), t, col, a);
    }
}

proof fn lemma_entries_settled(
    es: Seq<(Seq<char>, Json)>,
    t: Parsed,
    col: Seq<char>,
    a: AnswersView,
)
    ensures
        settled(entries_bytes(es, t, col, a), col),
    decreases t, 2nat, es.len(),
{
    if es.len() > 0 {
        lemma_entries_settled(es.drop_last(), t, col, a);
        law_refusals_name_their_column(es.last().1, t, col, a);
    }
}

/// A row that is refused is refused in the name of one of its columns.
pub proof fn law_refused_rows_name_a_column(
    row: Seq<(Seq<char>, Json)>,
    columns: Seq<ColumnView>,
    raw: Option<(Seq<char>, Seq<u8>)>,
    a: AnswersView,
)
    ensures
        row_wire(row, columns, raw, a) matches Err(e) ==> exists|i: int|
            0 <= i < columns.len() && is_about(e, (#[trigger] columns[i]).name),
{
    law_a_row_is_its_columns(row, columns, raw, a);
    if let Err(e) = row_wire(row, columns, raw, a) {
        let i = choose|i: int|
            0 <= i < columns.len() && column_bytes(row, #[trigger] columns[i], raw, a) == Err::<
                Seq<u8>,
                DynamicErrorView,
            >(e);
        let c = columns[i];
        law_refusals_name_their_column(
            value_at(row, c.name),
            c.ty,
            c.name,
            a,
        );
        assert(is_about(e, columns[i].name));
    }
}

/// An enum holds the number that the value stands for, and a number past its
/// width is refused.
pub proof fn law_enums_read_back(v: Json, t: Parsed, col: Seq<char>, a: AnswersView)
    ensures
        resolved(t) is Enum8 ==> match typed_bytes(v, t, col, a) {
            Ok(b) => enum_of(v, t.raw, col) matches Ok(i) && -128 <= i <= 127 && b.len() == 1
                && twos(le_nat(b), 1) == i,
            Err(_) => !(enum_of(v, t.raw, col) matches Ok(i) && -128 <= i <= 127),
        },
        resolved(t) is Enum16 ==> match typed_bytes(v, t, col, a) {
            Ok(b) => enum_of(v, t.raw, col) matches Ok(i) && -32_768 <= i <= 32_767 && b.len() == 2
                && twos(le_nat(b), 2) == i,
            Err(_) => !(enum_of(v, t.raw, col) matches Ok(i) && -32_768 <= i <= 32_767),
        },
{
    lemma_pow256();
    if let Ok(i) = enum_of(v, t.raw, col) {
        if -128 <= i <= 127 {
            lemma_integer_back(i, 1);
        }
        if -32_768 <= i <= 32_767 {
            lemma_integer_back(i, 2);
        }
    }
}

/// A type that leaves an argument unsaid means the usual one: milliseconds for
/// a `DateTime64`, 38 digits for a `Decimal`, no fractional digits, and one byte
/// for a `FixedString`.
pub proof fn law_unsaid_arguments(v: Json, t: Parsed, col: Seq<char>, a: AnswersView)
    ensures
        t.precision is None && t.tag is DateTime64 && t.base != "Decimal"@ ==> typed_bytes(
            v,
            t,
            col,
            a,
        ) == typed_bytes(v, (Parsed { precision: Some(3), ..t }), col, a),
        t.precision is None && t.base == "Decimal"@ ==> resolved(t) == resolved(
            (Parsed { precision: Some(38), ..t }),
        ) && resolved(t) is Decimal128,
        t.scale is None && t.tag is Decimal64 && t.base != "Decimal"@ ==> typed_bytes(
            v,
            t,
            col,
            a,
        ) == typed_bytes(v, (Parsed { scale: Some(0), ..t }), col, a),
        t.fixed_size is None && t.tag is FixedString && t.base != "Decimal"@ ==> typed_bytes(
            v,
            t,
            col,
            a,
        ) == typed_bytes(v, (Parsed { fixed_size: Some(1), ..t }), col, a),
{
}

/// A string of digits is written as the number that it spells would be, or
/// refused as that is.
pub proof fn law_texts_are_written_as_their_numbers(
    n: NumberView,
    i: int,
    tag: TypeTag,
    col: Seq<char>,
)
    requires
        integer_range(tag) is Some,
        i64::MIN <= i <= u64::MAX,
        n.unsigned == (if i >= 0 {
            Some(i as u64)
        } else {
            None
        }),
        n.signed == (if i <= i64::MAX {
            Some(i as i64)
        } else {
            None
        }),
    ensures
        match (
            integer_bytes(Json::Number(n), tag, col),
            integer_bytes(Json::String(integer_text(i)), tag, col),
        ) {
            (Some(Ok(x)), Some(Ok(y))) => x == y,
            (Some(Err(_)), Some(Err(_))) => true,
            _ => false,
        },
{
    let none: Seq<char> = seq![];
    law_number_texts_are_numbers(i, none, none, col);
    assert(none + integer_text(i) + none =~= integer_text(i));
    law_integers_of_numbers(n, i, true, col);
}

} // verus!
