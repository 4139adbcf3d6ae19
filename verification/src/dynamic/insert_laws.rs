//! What an insert promises of its columns, its statement and its rows.

use vstd::prelude::*;
use vstd::string::*;

use crate::dynamic::answers::AnswersView;
use crate::dynamic::encode::{row_wire, ColumnView};
use crate::dynamic::error::DynamicErrorView;
use crate::dynamic::insert::{
    classified, column_list, insert_statement, says_drift, selected, InsertView, StepView,
};
use crate::dynamic::schema::{column_place, columns_with, has_json, CacheView};
use crate::dynamic::sql::escaped;
use crate::dynamic::value::{member, Json};
use crate::error::ErrorView;
use crate::native::encode::{encoded, flat};
use crate::text::{law_found_first, mentions, stands_in};

verus! {

// ---------------------------------------------------------------------------
// Lookups
// ---------------------------------------------------------------------------

/// Whether an object has a member of that name.
pub open spec fn has_key(es: Seq<(Seq<char>, Json)>, name: Seq<char>) -> bool {
    exists|i: int| 0 <= i < es.len() && (#[trigger] es[i]).0 == name
}

/// A member is found by its name, the first of that name, and nothing exactly
/// where there is none.
pub proof fn law_members_are_found_by_name(es: Seq<(Seq<char>, Json)>, name: Seq<char>)
    ensures
        member(es, name) is Some <==> has_key(es, name),
        member(es, name) matches Some(v) ==> exists|i: int|
            0 <= i < es.len() && #[trigger] es[i] == (name, v) && forall|j: int|
                0 <= j < i ==> (#[trigger] es[j]).0 != name,
    decreases es.len(),
{
    if es.len() > 0 {
        let before = es.drop_last();
        let n = es.len() - 1;
        law_members_are_found_by_name(before, name);
        assert forall|j: int| 0 <= j < before.len() implies #[trigger] before[j] == es[j] by {}
        if let Some(v) = member(before, name) {
            let i = choose|i: int|
                0 <= i < before.len() && #[trigger] before[i] == (name, v) && forall|j: int|
                    0 <= j < i ==> (#[trigger] before[j]).0 != name;
            assert(es[i] == (name, v));
            assert forall|j: int| 0 <= j < i implies (#[trigger] es[j]).0 != name by {
                assert(before[j].0 != name);
            }
        } else if es[n].0 == name {
            assert(es[n] == (name, es[n].1));
            assert forall|j: int| 0 <= j < n implies (#[trigger] es[j]).0 != name by {
                assert(before[j] == es[j]);
            }
        } else {
            assert forall|j: int| 0 <= j < es.len() implies (#[trigger] es[j]).0 != name by {
                if j < n {
                    assert(before[j] == es[j]);
                }
            }
        }
    }
}

/// A column of a schema is found by its name, the last of that name, and
/// nothing exactly where there is none.
pub proof fn law_schema_columns_are_found_by_name(columns: Seq<ColumnView>, name: Seq<char>)
    ensures
        match column_place(columns, name) {
            Some(i) => {
                &&& i < columns.len()
                &&& columns[i as int].name == name
                &&& forall|j: int| i < j < columns.len() ==> (#[trigger] columns[j]).name != name
            },
            None => forall|j: int| 0 <= j < columns.len() ==> (#[trigger] columns[j]).name != name,
        },
    decreases columns.len(),
{
    if columns.len() > 0 && columns.last().name != name {
        let before = columns.drop_last();
        law_schema_columns_are_found_by_name(before, name);
        assert forall|j: int| 0 <= j < before.len() implies #[trigger] columns[j] == before[j] by {}
    }
}

/// The columns of one kind are those of the schema with, or without, a
/// server-side default, in the order of the schema.
pub proof fn law_columns_of_a_kind(columns: Seq<ColumnView>, has_default: bool)
    ensures
        columns_with(columns, has_default) == columns.filter(
            |c: ColumnView| c.has_default == has_default,
        ),
    decreases columns.len(),
{
    reveal(Seq::filter);
    if columns.len() > 0 {
        law_columns_of_a_kind(columns.drop_last(), has_default);
    } else {
        assert(columns =~= seq![]);
    }
}

// ---------------------------------------------------------------------------
// The columns of the INSERT
// ---------------------------------------------------------------------------

/// Whether a column belongs into the INSERT: its name is a key of the row, it
/// is written from raw bytes, or the server has no default for it.
pub open spec fn belongs(
    c: ColumnView,
    row: Seq<(Seq<char>, Json)>,
    raw_names: Seq<Seq<char>>,
) -> bool {
    has_key(row, c.name) || raw_names.contains(c.name) || !c.has_default
}

/// No supplied value is lost: the columns of the INSERT are exactly those of the
/// schema, in its order, whose name is a key of the row or a raw column, with or
/// without a server-side default, and those without a default.
pub proof fn law_no_supplied_value_is_lost(
    columns: Seq<ColumnView>,
    row: Seq<(Seq<char>, Json)>,
    raw_names: Seq<Seq<char>>,
)
    ensures
        selected(columns, row, raw_names) == columns.filter(
            |c: ColumnView| belongs(c, row, raw_names),
        ),
    decreases columns.len(),
{
    reveal(Seq::filter);
    if columns.len() > 0 {
        law_no_supplied_value_is_lost(columns.drop_last(), row, raw_names);
        law_members_are_found_by_name(row, columns.last().name);
    } else {
        assert(columns =~= seq![]);
    }
}

/// Every column that a row supplies is among those that the sink is opened
/// with, and every column left out has a default and is not supplied. The
/// statement names the columns opened with, and JSON is announced where the
/// schema holds any.
pub proof fn law_the_sink_takes_what_is_supplied(
    insert: InsertView,
    cache: CacheView,
    now: u128,
    row: Seq<(Seq<char>, Json)>,
    raw_names: Seq<Seq<char>>,
    raw: Option<(Seq<char>, Seq<u8>)>,
    a: AnswersView,
    c: ColumnView,
)
    ensures
        insert.step(cache, now, row, raw_names, raw, a) matches (next, Ok(StepView::Open(o))) ==> {
            &&& next.active is None
            &&& next.rows_written == insert.rows_written
            &&& next.schema matches Some(schema) && {
                &&& o.columns.contains(c) <==> schema.columns.contains(c) && belongs(
                    c,
                    row,
                    raw_names,
                )
                &&& insert.backend is Http ==> (o.json_as_string <==> has_json(schema.columns))
            }
            &&& o.columns.len() > 0
            &&& insert.schema matches Some(held) ==> next.schema == Some(held)
        },
{
    let (next, r) = insert.step(cache, now, row, raw_names, raw, a);
    if let Ok(StepView::Open(o)) = r {
        let columns = next.schema->Some_0.columns;
        law_no_supplied_value_is_lost(columns, row, raw_names);
        lemma_filter_contains(columns, |c: ColumnView| belongs(c, row, raw_names), c);
    }
}

proof fn lemma_filter_contains(s: Seq<ColumnView>, p: spec_fn(ColumnView) -> bool, c: ColumnView)
    ensures
        s.filter(p).contains(c) <==> s.contains(c) && p(c),
    decreases s.len(),
{
    reveal(Seq::filter);
    if s.len() > 0 {
        let before = s.drop_last();
        lemma_filter_contains(before, p, c);
        assert(s =~= before.push(s.last()));
        lemma_pushed(before, s.last(), c);
        lemma_pushed(before.filter(p), s.last(), c);
    }
}

proof fn lemma_pushed(s: Seq<ColumnView>, x: ColumnView, c: ColumnView)
    ensures
        s.push(x).contains(c) <==> s.contains(c) || c == x,
{
    if s.contains(c) {
        let i = choose|i: int| 0 <= i < s.len() && s[i] == c;
        assert(s.push(x)[i] == c);
    }
    if c == x {
        assert(s.push(x)[s.len() as int] == c);
    }
}

// ---------------------------------------------------------------------------
// The statement
// ---------------------------------------------------------------------------

/// The quoted name of column `i`, behind a comma where it is not the first.
pub open spec fn listed(columns: Seq<ColumnView>, i: int) -> Seq<char> {
    (if i > 0 {
        seq![',', ' ']
    } else {
        seq![]
    }) + seq!['`'] + escaped(columns[i].name) + seq!['`']
}

/// The statement names every column once, in order, each quoted.
pub proof fn law_the_statement_names_every_column(columns: Seq<ColumnView>)
    ensures
        column_list(columns) == flat(Seq::new(columns.len(), |i: int| listed(columns, i))),
    decreases columns.len(),
{
    reveal_strlit(", ");
    let parts = Seq::new(columns.len(), |i: int| listed(columns, i));
    assert(", "@ =~= seq![',', ' ']);
    if columns.len() > 0 {
        let before = columns.drop_last();
        law_the_statement_names_every_column(before);
        let earlier = Seq::new(before.len(), |i: int| listed(before, i));
        assert(parts.drop_last() =~= earlier) by {
            assert forall|i: int| 0 <= i < earlier.len() implies parts[i] == earlier[i] by {
                assert(before[i] == columns[i]);
            }
        }
        if columns.len() == 1 {
            assert(earlier =~= seq![]);
            assert(flat(earlier) =~= seq![]);
        }
        assert(column_list(columns) =~= flat(parts));
    } else {
        assert(parts =~= seq![]);
    }
}

/// The statement writes to the table, in the format that the sink takes.
pub proof fn law_the_statement_writes_to_the_table(
    database: Seq<char>,
    table: Seq<char>,
    columns: Seq<ColumnView>,
    format: Seq<char>,
)
    ensures
        insert_statement(database, table, columns, format) == "INSERT INTO `"@ + escaped(database)
            + "`.`"@ + escaped(table) + "` ("@ + column_list(columns) + ") FORMAT "@ + format,
{
    reveal_strlit("INSERT INTO `");
    reveal_strlit("INSERT INTO ");
    reveal_strlit("`.`");
    reveal_strlit(".");
    reveal_strlit("` (");
    reveal_strlit(" (");
    assert("INSERT INTO `"@ =~= "INSERT INTO "@ + seq!['`']);
    assert("`.`"@ =~= seq!['`'] + "."@ + seq!['`']);
    assert("` ("@ =~= seq!['`'] + " ("@);
    assert(insert_statement(database, table, columns, format) =~= "INSERT INTO `"@ + escaped(
        database,
    ) + "`.`"@ + escaped(table) + "` ("@ + column_list(columns) + ") FORMAT "@ + format);
}

// ---------------------------------------------------------------------------
// Rows over TCP
// ---------------------------------------------------------------------------

/// Over TCP no row is lost or sent twice: a written row is held behind those
/// that are held already, or sent with all of them, in order, as one block of
/// as many rows, after which none is held. A block is sent as soon as the rows
/// fill it.
pub proof fn law_tcp_rows_are_held_or_sent(
    insert: InsertView,
    cache: CacheView,
    now: u128,
    row: Seq<(Seq<char>, Json)>,
    raw_names: Seq<Seq<char>>,
    raw: Option<(Seq<char>, Seq<u8>)>,
    a: AnswersView,
)
    requires
        insert.backend is Tcp,
        insert.rows_written < u64::MAX,
    ensures
        ({
            let (next, r) = insert.step(cache, now, row, raw_names, raw, a);
            let held = insert.active->Some_0;
            let full = insert.backend->block_rows;
            match r {
                Ok(StepView::Held) => {
                    &&& insert.active is Some && next.active is Some
                    &&& row_wire(row, held.columns, raw, a) matches Ok(bytes)
                        && next.active->Some_0.block == held.block.push(bytes)
                    &&& held.block.len() + 1 < full
                    &&& next.rows_written == insert.rows_written + 1
                },
                Ok(StepView::SendBlock(b)) => {
                    &&& insert.active is Some && next.active is Some
                    &&& row_wire(row, held.columns, raw, a) matches Ok(bytes) && encoded(
                        held.block.push(bytes),
                        held.native,
                        held.revision,
                    ) == Ok::<Seq<u8>, ErrorView>(b.bytes)
                    &&& b.num_rows == held.block.len() + 1
                    &&& b.num_columns == held.native.len()
                    &&& next.active->Some_0.block.len() == 0
                    &&& held.block.len() + 1 >= full
                    &&& next.rows_written == insert.rows_written
                },
                Ok(StepView::Row(_)) => false,
                Ok(StepView::FetchSchema(_)) => false,
                Ok(StepView::Open(_)) => insert.active is None,
                Err(_) => next.rows_written == insert.rows_written,
            }
        }),
{
}

/// The open sink keeps its columns, its headers and its revision through every
/// write.
pub proof fn law_the_open_sink_stays(
    insert: InsertView,
    cache: CacheView,
    now: u128,
    row: Seq<(Seq<char>, Json)>,
    raw_names: Seq<Seq<char>>,
    raw: Option<(Seq<char>, Seq<u8>)>,
    a: AnswersView,
)
    ensures
        ({
            let next = insert.step(cache, now, row, raw_names, raw, a).0;
            &&& next.database == insert.database
            &&& next.table == insert.table
            &&& next.backend == insert.backend
            &&& next.active is Some <==> insert.active is Some
            &&& insert.active matches Some(x) ==> next.active matches Some(y) && y.columns
                == x.columns && y.native == x.native && y.revision == x.revision
        }),
{
}

// ---------------------------------------------------------------------------
// Drift
// ---------------------------------------------------------------------------

/// Whether `part` is found anywhere in `s`.
pub open spec fn found(s: Seq<char>, part: Seq<char>) -> bool {
    exists|i: int| stands_in(s, part, i)
}

/// A rejection means schema drift exactly where its text names one of the
/// errors that stand for it, anywhere in it. It is then reported as a schema
/// mismatch of the table, and otherwise as an error of no column, with its text.
pub proof fn law_drift_is_named(full_table: Seq<char>, message: Seq<char>)
    ensures
        says_drift(message) <==> {
            ||| found(message, "UNKNOWN_IDENTIFIER"@)
            ||| found(message, "NO_SUCH_COLUMN"@)
            ||| found(message, "THERE_IS_NO_COLUMN"@)
            ||| found(message, "TYPE_MISMATCH"@)
            ||| found(message, "ILLEGAL_COLUMN"@)
            ||| found(message, "CANNOT_PARSE"@)
            ||| found(message, "cannot parse"@)
            ||| found(message, "INCORRECT_DATA"@)
            ||| found(message, "incorrect data"@)
            ||| found(message, "Code: 117"@)
        },
        says_drift(message) ==> classified(full_table, message) == (
        DynamicErrorView::SchemaMismatch { table: full_table, message }),
        !says_drift(message) ==> classified(full_table, message) == (
        DynamicErrorView::EncodingError { column: seq![], message }),
{
    lemma_found(message, "UNKNOWN_IDENTIFIER"@);
    lemma_found(message, "NO_SUCH_COLUMN"@);
    lemma_found(message, "THERE_IS_NO_COLUMN"@);
    lemma_found(message, "TYPE_MISMATCH"@);
    lemma_found(message, "ILLEGAL_COLUMN"@);
    lemma_found(message, "CANNOT_PARSE"@);
    lemma_found(message, "cannot parse"@);
    lemma_found(message, "INCORRECT_DATA"@);
    lemma_found(message, "incorrect data"@);
    lemma_found(message, "Code: 117"@);
}

proof fn lemma_found(s: Seq<char>, part: Seq<char>)
    ensures
        mentions(s, part) <==> found(s, part),
{
    law_found_first(s, part, 0);
}

} // verus!
