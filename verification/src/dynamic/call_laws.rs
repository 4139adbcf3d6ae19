//! What calls of the dynamic insert return, and how one call relates to another.

use vstd::prelude::*;
use vstd::string::*;

use crate::dynamic::answers::{Answers, Float};
use crate::dynamic::encode::{column_views, row_wire, ColumnDef, ColumnView, DynamicRow};
use crate::dynamic::error::{DynamicError, DynamicErrorView};
use crate::dynamic::insert::{
    classify_error, insert_sql, name_texts, select_columns, Backend, Block, DynamicInsert, Opening,
    Step,
};
use crate::dynamic::insert_laws::{
    belongs, found, law_columns_of_a_kind, law_drift_is_named, law_no_supplied_value_is_lost,
    law_schema_columns_are_found_by_name, law_the_statement_names_every_column,
    law_the_statement_writes_to_the_table, listed,
};
use crate::dynamic::parsed_type::{parsed_type, uses_json, ParsedType};
use crate::dynamic::scalars::enum_member_value;
use crate::dynamic::schema::{
    borrowed_views, schema_from_system_columns, DynamicSchema, DynamicSchemaCache,
};
use crate::dynamic::sql::{
    escape_ident, escaped, law_quotes_are_read_back, law_the_query_names_database_and_table,
    quote_literal, system_columns_sql, unescaped,
};
use crate::dynamic::time::{
    civil_days_from_epoch, date_of, datetime64_to_ticks, epoch_to_seconds, octet_chars,
    parse_datetime_str, to_epoch_days, to_epoch_seconds,
};
use crate::dynamic::time_laws::{
    law_a_datetime_is_a_day_and_a_clock, law_epoch_numbers_are_cut_to_seconds,
    law_the_calendar_is_gregorian, law_the_day_holds_the_second,
};
use crate::dynamic::value::{entries, value_to_str, Json, Value};
use crate::dynamic::value_laws::{is_clean, law_enum_names_stand_for_their_numbers, members_text};
use crate::dynamic::wire_laws::{column_forms, law_a_row_is_its_columns};
use crate::error::ErrorView;
use crate::native::encode::{encoded, flat};
use crate::text::number;

verus! {

// ---------------------------------------------------------------------------
// Time
// ---------------------------------------------------------------------------

/// The day that a value is taken for is the one that its second lies in, and a
/// value that has no second has no day.
pub proof fn law_days_hold_their_seconds(
    value: &Value,
    col: &str,
    days: Result<i32, DynamicError>,
    seconds: Result<i64, DynamicError>,
)
    requires
        call_ensures(to_epoch_days, (value, col), days),
        call_ensures(to_epoch_seconds, (value, col), seconds),
    ensures
        days matches Ok(d) ==> seconds matches Ok(s) && d * 86_400 <= s < (d + 1) * 86_400,
        seconds matches Ok(s) ==> (days is Ok <==> i32::MIN * 86_400 <= s < (i32::MAX + 1) * 86_400),
{
    law_the_day_holds_the_second(value@, col@);
}

/// The next day of a month is one day later, the first of the next month as
/// many as the month has, and the epoch is day zero.
pub proof fn law_days_follow_each_other(
    year: i32,
    month: u32,
    day: u32,
    here: i64,
    next: i64,
    first: i64,
    after: i64,
    epoch: i64,
)
    requires
        1 <= month < 12,
        day < u32::MAX,
        year > i32::MIN,
        call_ensures(civil_days_from_epoch, (year, month, day), here),
        call_ensures(civil_days_from_epoch, (year, month, (day + 1) as u32), next),
        call_ensures(civil_days_from_epoch, (year, month, 1u32), first),
        call_ensures(civil_days_from_epoch, (year, (month + 1) as u32, 1u32), after),
        call_ensures(civil_days_from_epoch, (1970i32, 1u32, 1u32), epoch),
    ensures
        epoch == 0,
        next == here + 1,
        here - first == day - 1,
        after - first == (if month == 2 {
            if year as int % 400 == 0 || (year as int % 4 == 0 && year as int % 100 != 0) {
                29int
            } else {
                28
            }
        } else if month == 4 || month == 6 || month == 9 || month == 11 {
            30
        } else {
            31
        }),
{
    law_the_calendar_is_gregorian(year as int, month as int, day as int);
}

/// A year begins on the day behind its predecessor's last.
pub proof fn law_years_follow_each_other(year: i32, last: i64, first: i64)
    requires
        i32::MIN < year < i32::MAX,
        call_ensures(civil_days_from_epoch, (year, 12u32, 31u32), last),
        call_ensures(civil_days_from_epoch, ((year + 1) as i32, 1u32, 1u32), first),
    ensures
        first == last + 1,
{
    law_the_calendar_is_gregorian(year as int, 12, 1);
}

/// A whole number of seconds, or of the finer unit that its magnitude tells, is
/// the second it lies in.
pub proof fn law_epoch_numbers_lie_in_their_second(ts: i64, s: i64)
    requires
        call_ensures(epoch_to_seconds, (ts,), s),
    ensures
        ts <= 1_000_000_000_000 ==> s == ts,
        1_000_000_000_000 < ts <= 1_000_000_000_000_000 ==> s * 1_000 <= ts < (s + 1) * 1_000,
        1_000_000_000_000_000 < ts <= 1_000_000_000_000_000_000 ==> s * 1_000_000 <= ts < (s + 1)
            * 1_000_000,
        1_000_000_000_000_000_000 < ts ==> s * 1_000_000_000 <= ts < (s + 1) * 1_000_000_000,
{
    law_epoch_numbers_are_cut_to_seconds(ts as int);
}

/// A whole number is the number of ticks that it is, at any precision.
pub proof fn law_whole_numbers_are_ticks(
    value: &Value,
    precision: u8,
    col: &str,
    i: i64,
    r: Result<i64, DynamicError>,
)
    requires
        value@ is Number,
        value@->Number_0.signed == Some(i),
        call_ensures(datetime64_to_ticks, (value, precision, col), r),
    ensures
        r matches Ok(t) && t == i,
{
}

// ---------------------------------------------------------------------------
// Schemas
// ---------------------------------------------------------------------------

/// The rows of `system.columns` give one column each, in order: with the name
/// and the type of its own row, and with a default where its row names a kind
/// of default.
pub proof fn law_a_schema_is_its_rows(
    full_table: String,
    rows: Vec<(String, String, String)>,
    r: Result<DynamicSchema, DynamicError>,
)
    requires
        call_ensures(schema_from_system_columns, (full_table, rows), r),
    ensures
        match r {
            Ok(s) => {
                &&& s@.table == full_table@
                &&& s@.columns.len() == rows@.len() > 0
                &&& forall|i: int|
                    0 <= i < rows@.len() ==> {
                        let c = #[trigger] s@.columns[i];
                        &&& c.name == rows@[i].0@
                        &&& c.type_string == rows@[i].1@
                        &&& c.ty == parsed_type(rows@[i].1@)
                        &&& c.has_default == (rows@[i].2@.len() > 0)
                    }
            },
            Err(e) => rows@.len() == 0 && e@ == (DynamicErrorView::EmptySchema {
                table: full_table@,
            }),
        },
{
}

/// A column is found by its name, the last of that name, and nothing where the
/// schema has none.
pub proof fn law_columns_are_looked_up_by_name(
    schema: &DynamicSchema,
    name: &str,
    r: Option<&ColumnDef>,
)
    requires
        call_ensures(DynamicSchema::column, (schema, name), r),
    ensures
        match r {
            Some(c) => exists|i: int|
                0 <= i < schema@.columns.len() && #[trigger] schema@.columns[i] == c@ && c@.name
                    == name@ && forall|j: int|
                    i < j < schema@.columns.len() ==> (#[trigger] schema@.columns[j]).name != name@,
            None => forall|j: int|
                0 <= j < schema@.columns.len() ==> (#[trigger] schema@.columns[j]).name != name@,
        },
{
    law_schema_columns_are_found_by_name(schema@.columns, name@);
}

/// The required columns are those without a default and the optional ones those
/// with one, each in the order of the schema.
pub proof fn law_columns_are_required_or_optional(
    schema: &DynamicSchema,
    required: Vec<&ColumnDef>,
    optional: Vec<&ColumnDef>,
)
    requires
        call_ensures(DynamicSchema::required_columns, (schema,), required),
        call_ensures(DynamicSchema::optional_columns, (schema,), optional),
    ensures
        borrowed_views(required@) == schema@.columns.filter(|c: ColumnView| c.has_default == false),
        borrowed_views(optional@) == schema@.columns.filter(|c: ColumnView| c.has_default == true),
{
    law_columns_of_a_kind(schema@.columns, false);
    law_columns_of_a_kind(schema@.columns, true);
}

/// A schema is empty where it has no columns, and has JSON where a column has.
pub proof fn law_schemas_are_measured_by_their_columns(
    schema: &DynamicSchema,
    n: usize,
    empty: bool,
    json: bool,
)
    requires
        call_ensures(DynamicSchema::len, (schema,), n),
        call_ensures(DynamicSchema::is_empty, (schema,), empty),
        call_ensures(DynamicSchema::has_json_columns, (schema,), json),
    ensures
        n == schema@.columns.len(),
        empty <==> n == 0,
        json <==> exists|i: int|
            0 <= i < schema@.columns.len() && uses_json((#[trigger] schema@.columns[i]).ty),
{
}

// ---------------------------------------------------------------------------
// The cache
// ---------------------------------------------------------------------------

/// A schema that was put into the cache is found under its table until the
/// freshness window has passed, and what is found under any other table is what
/// was found there before.
pub proof fn law_what_is_cached_is_found(
    cache: &mut DynamicSchemaCache,
    after: DynamicSchemaCache,
    table: &str,
    schema: DynamicSchema,
    now: u128,
    later: u128,
    found: Option<DynamicSchema>,
    other: &str,
    elsewhere: Option<DynamicSchema>,
    before: Option<DynamicSchema>,
)
    requires
        call_ensures(DynamicSchemaCache::insert, (cache, table, schema, now), ()),
        after@ == final(cache)@,
        call_ensures(DynamicSchemaCache::get, (&after, table, later), found),
        other@ != table@,
        call_ensures(DynamicSchemaCache::get, (&after, other, later), elsewhere),
        call_ensures(DynamicSchemaCache::get, (&*old(cache), other, later), before),
    ensures
        found is Some <==> later - now < old(cache)@.ttl && old(cache)@.ttl > 0,
        found matches Some(s) ==> s@ == schema@,
        elsewhere is Some <==> before is Some,
        elsewhere matches Some(x) ==> before matches Some(y) && x@ == y@,
{
}

/// A table that was invalidated is not found until it is put into the cache
/// again, and no table is after all were.
pub proof fn law_what_is_invalidated_is_gone(
    cache: &mut DynamicSchemaCache,
    all: &mut DynamicSchemaCache,
    after: DynamicSchemaCache,
    emptied: DynamicSchemaCache,
    table: &str,
    any: &str,
    later: u128,
    found: Option<DynamicSchema>,
    left: Option<DynamicSchema>,
)
    requires
        call_ensures(DynamicSchemaCache::invalidate, (cache, table), ()),
        after@ == final(cache)@,
        call_ensures(DynamicSchemaCache::get, (&after, table, later), found),
        call_ensures(DynamicSchemaCache::invalidate_all, (all,), ()),
        emptied@ == final(all)@,
        call_ensures(DynamicSchemaCache::get, (&emptied, any, later), left),
    ensures
        found is None,
        left is None,
{
}

/// A new cache holds nothing.
pub proof fn law_a_new_cache_is_empty(
    ttl: u128,
    cache: DynamicSchemaCache,
    table: &str,
    now: u128,
    found: Option<DynamicSchema>,
)
    requires
        call_ensures(DynamicSchemaCache::new, (ttl,), cache),
        call_ensures(DynamicSchemaCache::get, (&cache, table, now), found),
    ensures
        found is None,
{
}

// ---------------------------------------------------------------------------
// Statements
// ---------------------------------------------------------------------------

/// What is quoted is read back as it was: an identifier from between backticks,
/// a literal from between single quotes.
pub proof fn law_quoted_names_read_back(name: &str, ident: String, quoted: String)
    requires
        call_ensures(escape_ident, (name,), ident),
        call_ensures(quote_literal, (name,), quoted),
    ensures
        ident@.len() >= 2 && ident@[0] == '`' && ident@.last() == '`',
        unescaped(ident@.subrange(1, ident@.len() - 1)) == Some(name@),
        quoted@.len() >= 2 && quoted@[0] == '\'' && quoted@.last() == '\'',
        unescaped(quoted@.subrange(1, quoted@.len() - 1)) == Some(name@),
{
    law_quotes_are_read_back(name@);
}

/// The query for a schema asks for the columns of that table in that database.
pub proof fn law_the_schema_query_names_its_table(database: &str, table: &str, sql: String)
    requires
        call_ensures(system_columns_sql, (database, table), sql),
    ensures
        exists|d: Seq<char>, t: Seq<char>|
            #![trigger unescaped(d), unescaped(t)]
            {
                &&& unescaped(d) == Some(database@)
                &&& unescaped(t) == Some(table@)
                &&& sql@
                    == "SELECT name, type AS col_type, default_kind FROM system.columns WHERE database = "@
                    + (seq!['\''] + d + seq!['\'']) + " AND table = "@ + (seq!['\''] + t
                    + seq!['\'']) + " ORDER BY position"@
            },
{
    law_the_query_names_database_and_table(database@, table@);
}

/// The statement writes to the table, names every column once and in order, and
/// ends with the format.
pub proof fn law_the_insert_names_its_columns(
    database: &str,
    table: &str,
    columns: &Vec<ColumnDef>,
    format: &str,
    sql: String,
)
    requires
        call_ensures(insert_sql, (database, table, columns, format), sql),
    ensures
        sql@ == "INSERT INTO `"@ + escaped(database@) + "`.`"@ + escaped(table@) + "` ("@ + flat(
            Seq::new(columns@.len(), |i: int| listed(column_views(columns@), i)),
        ) + ") FORMAT "@ + format@,
{
    law_the_statement_writes_to_the_table(
        database@,
        table@,
        column_views(columns@),
        format@,
    );
    law_the_statement_names_every_column(column_views(columns@));
}

/// The INSERT takes exactly the columns of the schema, in its order, whose name
/// is a key of the row or a raw column, and those without a default.
pub proof fn law_the_insert_takes_what_is_supplied(
    row: &[(String, Value)],
    raw_names: &[&str],
    schema: &DynamicSchema,
    out: Vec<ColumnDef>,
)
    requires
        call_ensures(select_columns, (row, raw_names, schema), out),
    ensures
        column_views(out@) == schema@.columns.filter(
            |c: ColumnView| belongs(c, entries(row@), name_texts(raw_names@)),
        ),
{
    law_no_supplied_value_is_lost(schema@.columns, entries(row@), name_texts(raw_names@));
}

/// Whether a rejection names an error that stands for schema drift.
pub open spec fn names_drift(message: Seq<char>) -> bool {
    ||| found(message, "UNKNOWN_IDENTIFIER"@)
    ||| found(message, "NO_SUCH_COLUMN"@)
    ||| found(message, "THERE_IS_NO_COLUMN"@)
    ||| found(message, "TYPE_MISMATCH"@)
    ||| found(message, "ILLEGAL_COLUMN"@)
    ||| found(message, "CANNOT_PARSE"@)
    ||| found(message, "cannot parse"@)
    ||| found(message, "INCORRECT_DATA"@)
    ||| found(message, "incorrect data"@)
    ||| found(message, "Code: 117"@)
}

/// A rejection is a schema mismatch of the table where it names one, and an
/// error of no column elsewhere; either way it keeps its text.
pub proof fn law_rejections_are_told_apart(full_table: &str, message: &str, e: DynamicError)
    requires
        call_ensures(classify_error, (full_table, message), e),
    ensures
        e@ == if names_drift(message@) {
            DynamicErrorView::SchemaMismatch { table: full_table@, message: message@ }
        } else {
            DynamicErrorView::EncodingError { column: seq![], message: message@ }
        },
{
    law_drift_is_named(full_table@, message@);
}

// ---------------------------------------------------------------------------
// Rows
// ---------------------------------------------------------------------------

/// A row is the forms of its columns, in order.
pub proof fn law_rows_are_their_columns(
    row: &[(String, Value)],
    columns: &[ColumnDef],
    line: DynamicRow,
    answers: &Answers,
    r: Result<Vec<u8>, DynamicError>,
)
    requires
        call_ensures(DynamicRow::new, (row, columns), line),
        call_ensures(DynamicRow::encode, (&line, answers), r),
    ensures
        r matches Ok(b) ==> b@ == flat(
            column_forms(entries(row@), column_views(columns@), None, answers@),
        ),
{
    law_a_row_is_its_columns(entries(row@), column_views(columns@), None, answers@);
}

/// A column has the name and the type that it was made with, and a default
/// exactly where it was made with a kind of default.
pub proof fn law_columns_are_what_they_were_made(
    name: &str,
    type_string: &str,
    kind: &str,
    plain: ColumnDef,
    other: ColumnDef,
    parsed: ParsedType,
)
    requires
        call_ensures(ColumnDef::new, (name, type_string), plain),
        call_ensures(ColumnDef::with_default_kind, (name, type_string, kind), other),
        call_ensures(ParsedType::parse, (type_string,), parsed),
    ensures
        plain@.name == name@ && other@.name == name@,
        plain@.type_string == type_string@ && other@.type_string == type_string@,
        plain@.ty == parsed@ && other@.ty == parsed@,
        !plain@.has_default,
        other@.has_default <==> kind@.len() > 0,
{
}

// ---------------------------------------------------------------------------
// A session
// ---------------------------------------------------------------------------

/// A new insert has written nothing, writes to its table, and has the schema
/// that it was given, or none.
pub proof fn law_a_new_insert_is_idle(
    database: &str,
    table: &str,
    schema: DynamicSchema,
    block_rows: u64,
    http: DynamicInsert,
    tcp: DynamicInsert,
    n: u64,
    m: u64,
    none: Option<&DynamicSchema>,
    given: Option<&DynamicSchema>,
    full: String,
    same: String,
)
    requires
        call_ensures(DynamicInsert::http, (database, table), http),
        call_ensures(DynamicInsert::tcp, (database, table, schema, block_rows), tcp),
        call_ensures(DynamicInsert::rows_written, (&http,), n),
        call_ensures(DynamicInsert::rows_written, (&tcp,), m),
        call_ensures(DynamicInsert::schema, (&http,), none),
        call_ensures(DynamicInsert::schema, (&tcp,), given),
        call_ensures(DynamicInsert::full_table, (&http,), full),
        call_ensures(DynamicInsert::full_table, (&tcp,), same),
    ensures
        n == 0 && m == 0,
        none is None,
        given matches Some(s) && s@ == schema@,
        full@ == database@ + seq!['.'] + table@,
        same@ == full@,
        http@.active is None && tcp@.active is None,
        tcp@.backend == (Backend::Tcp { block_rows }),
{
    reveal_strlit(".");
    assert("."@ =~= seq!['.']);
}

/// A schema that is supplied is held by the insert and found in the cache, and
/// nothing else of the insert changes; no rows are no schema, and change
/// nothing.
pub proof fn law_a_supplied_schema_is_held(
    insert: &mut DynamicInsert,
    cache: &mut DynamicSchemaCache,
    now: u128,
    rows: Vec<(String, String, String)>,
    r: Result<(), DynamicError>,
)
    requires
        call_ensures(DynamicInsert::supply_schema, (insert, cache, now, rows), r),
    ensures
        r is Ok <==> rows@.len() > 0,
        r is Ok ==> (final(insert)@.schema matches Some(s) && s.columns.len() == rows@.len() && (
        forall|i: int|
            0 <= i < rows@.len() ==> (#[trigger] s.columns[i]).name == rows@[i].0@
                && s.columns[i].type_string == rows@[i].1@) && final(cache)@.entries.contains_key(
            old(insert)@.database + seq!['.'] + old(insert)@.table,
        ) && final(cache)@.entries[old(insert)@.database + seq!['.']
            + old(insert)@.table].schema == s),
        r is Err ==> final(insert)@ == old(insert)@ && final(cache)@ == old(cache)@,
        final(insert)@.rows_written == old(insert)@.rows_written,
        final(insert)@.active == old(insert)@.active,
        final(insert)@.database == old(insert)@.database,
        final(insert)@.table == old(insert)@.table,
        final(insert)@.backend == old(insert)@.backend,
{
    reveal_strlit(".");
    assert("."@ =~= seq!['.']);
}

/// An opened sink takes the columns that it was opened with, and holds no rows.
pub proof fn law_an_opened_sink_is_empty(
    insert: &mut DynamicInsert,
    opening: Opening,
    revision: u64,
)
    requires
        call_ensures(DynamicInsert::opened, (insert, opening, revision), ()),
    ensures
        final(insert)@.active matches Some(a) && a.columns == opening@.columns && a.native
            == opening@.native && a.revision == revision && a.block.len() == 0,
        final(insert)@.rows_written == old(insert)@.rows_written,
        final(insert)@.schema == old(insert)@.schema,
{
}

/// A row that is handed to the sink is the one that was given, encoded for the
/// columns of the sink, and counts as one more.
pub proof fn law_a_written_row_counts(
    insert: &mut DynamicInsert,
    cache: &DynamicSchemaCache,
    now: u128,
    row: &[(String, Value)],
    answers: &Answers,
    r: Result<Step, DynamicError>,
)
    requires
        old(insert)@.rows_written < u64::MAX,
        call_ensures(DynamicInsert::write_map, (insert, cache, now, row, answers), r),
    ensures
        match r {
            Ok(Step::Row(b)) => {
                &&& final(insert)@.rows_written == old(insert)@.rows_written + 1
                &&& old(insert)@.active matches Some(a) && row_wire(
                    entries(row@),
                    a.columns,
                    None,
                    answers@,
                ) == Ok::<Seq<u8>, DynamicErrorView>(b@)
                &&& old(insert)@.backend is Http
            },
            Ok(Step::Held) => {
                &&& final(insert)@.rows_written == old(insert)@.rows_written + 1
                &&& old(insert)@.active matches Some(a) && final(insert)@.active matches Some(b)
                    && row_wire(entries(row@), a.columns, None, answers@) matches Ok(line)
                    && b.block == a.block.push(line)
            },
            Ok(Step::SendBlock(block)) => {
                &&& final(insert)@.rows_written == old(insert)@.rows_written
                &&& old(insert)@.active matches Some(a) && final(insert)@.active matches Some(b)
                    && row_wire(entries(row@), a.columns, None, answers@) matches Ok(line)
                    && b.block.len() == 0 && block.num_rows == a.block.len() + 1 && encoded(
                    a.block.push(line),
                    a.native,
                    a.revision,
                ) == Ok::<Seq<u8>, ErrorView>(block.bytes@)
            },
            Ok(Step::FetchSchema(_)) => old(insert)@.schema is None && old(insert)@.backend is Http
                && final(insert)@ == old(insert)@,
            Ok(Step::Open(_)) => old(insert)@.active is None && final(insert)@.rows_written
                == old(insert)@.rows_written,
            Err(_) => final(insert)@.rows_written == old(insert)@.rows_written,
        },
{
}

/// A block that was sent counts its last row; one that was not counts nothing,
/// and the failure keeps its text.
pub proof fn law_a_sent_block_counts(
    insert: &mut DynamicInsert,
    outcome: Result<(), String>,
    r: Result<(), DynamicError>,
)
    requires
        old(insert)@.rows_written < u64::MAX,
        call_ensures(DynamicInsert::block_sent, (insert, outcome), r),
    ensures
        r is Ok <==> outcome is Ok,
        final(insert)@.rows_written == old(insert)@.rows_written + if outcome is Ok {
            1int
        } else {
            0
        },
        final(insert)@.active == old(insert)@.active,
        final(insert)@.schema == old(insert)@.schema,
        outcome matches Err(m) ==> r matches Err(e) && match e@ {
            DynamicErrorView::SchemaMismatch { message, .. } => message == m@ && names_drift(m@),
            DynamicErrorView::EncodingError { message, .. } => message == m@ && !names_drift(m@),
            _ => false,
        },
{
    if let Err(m) = outcome {
        law_drift_is_named(old(insert)@.full_table(), m@);
    }
}

/// The rows that are still held at the end are sent, all of them and in order,
/// as one block of as many rows; where none are held there is nothing to send.
/// Afterwards no sink is open.
pub proof fn law_the_end_sends_what_is_held(
    insert: &mut DynamicInsert,
    r: Result<Option<Block>, DynamicError>,
)
    requires
        call_ensures(DynamicInsert::end, (insert,), r),
    ensures
        final(insert)@.active is None,
        final(insert)@.rows_written == old(insert)@.rows_written,
        old(insert)@.active is None || old(insert)@.backend is Http ==> r matches Ok(None),
        old(insert)@.active matches Some(a) ==> old(insert)@.backend is Tcp ==> match r {
            Ok(None) => a.block.len() == 0,
            Ok(Some(b)) => a.block.len() > 0 && b.num_rows == a.block.len() && b.num_columns
                == a.native.len() && encoded(a.block, a.native, a.revision) == Ok::<
                Seq<u8>,
                ErrorView,
            >(b.bytes@),
            Err(_) => a.block.len() > 0 && encoded(a.block, a.native, a.revision) is Err,
        },
{
}

/// A closed insert reports the rows that were written; a rejected one the
/// rejection, and one that names schema drift also drops the schema, over HTTP,
/// from the insert and from the cache, so that the next write asks for it again.
pub proof fn law_the_outcome_is_reported(
    insert: &mut DynamicInsert,
    cache: &mut DynamicSchemaCache,
    outcome: Result<(), String>,
    r: Result<u64, DynamicError>,
)
    requires
        call_ensures(DynamicInsert::ended, (insert, cache, outcome), r),
    ensures
        outcome is Ok ==> (r matches Ok(n) && n == old(insert)@.rows_written),
        outcome is Ok ==> final(insert)@ == old(insert)@ && final(cache)@ == old(cache)@,
        outcome matches Err(m) ==> r is Err && if names_drift(m@) && old(insert)@.backend is Http {
            &&& final(insert)@.schema is None
            &&& !final(cache)@.entries.contains_key(
                old(insert)@.database + seq!['.'] + old(insert)@.table,
            )
        } else {
            final(insert)@ == old(insert)@ && final(cache)@ == old(cache)@
        },
        final(insert)@.rows_written == old(insert)@.rows_written,
{
    reveal_strlit(".");
    assert("."@ =~= seq!['.']);
    if let Err(m) = outcome {
        law_drift_is_named(old(insert)@.full_table(), m@);
    }
}

/// An invalidated schema is dropped, over HTTP, from the insert and from the
/// cache; over TCP the schema is the caller's and stays.
pub proof fn law_an_invalidated_schema_is_dropped(
    insert: &mut DynamicInsert,
    cache: &mut DynamicSchemaCache,
)
    requires
        call_ensures(DynamicInsert::invalidate_schema, (insert, cache), ()),
    ensures
        old(insert)@.backend is Http ==> final(insert)@.schema is None
            && !final(cache)@.entries.contains_key(
            old(insert)@.database + seq!['.'] + old(insert)@.table,
        ),
        old(insert)@.backend is Tcp ==> final(insert)@ == old(insert)@ && final(cache)@
            == old(cache)@,
        final(insert)@.rows_written == old(insert)@.rows_written,
        final(insert)@.active == old(insert)@.active,
{
    reveal_strlit(".");
    assert("."@ =~= seq!['.']);
}

// ---------------------------------------------------------------------------
// Answers
// ---------------------------------------------------------------------------

/// An answer that was supplied is found under its text, and what is found under
/// any other text is what was found before.
pub proof fn law_supplied_answers_are_found(
    answers: &mut Answers,
    after: Answers,
    text: String,
    answer: Option<Float>,
    same: &str,
    other: &str,
    found: Option<Option<Float>>,
    elsewhere: Option<Option<Float>>,
    before: Option<Option<Float>>,
)
    requires
        call_ensures(Answers::supply_float, (answers, text, answer), ()),
        after@ == final(answers)@,
        same@ == text@,
        other@ != text@,
        call_ensures(Answers::float, (&after, same), found),
        call_ensures(Answers::float, (&after, other), elsewhere),
        call_ensures(Answers::float, (&*old(answers), other), before),
    ensures
        found == Some(answer),
        elsewhere == before,
        final(answers)@.scaled == old(answers)@.scaled,
        final(answers)@.addresses == old(answers)@.addresses,
{
    assert(after@.floats.drop_last() =~= old(answers)@.floats);
    assert(after@.floats.last() == (text@, answer));
}

/// A product that was supplied is found under its number and scale, and under no
/// other.
pub proof fn law_supplied_products_are_found(
    answers: &mut Answers,
    after: Answers,
    bits: u64,
    scale: u8,
    answer: Option<i128>,
    x: u64,
    y: u8,
    found: Option<Option<i128>>,
    elsewhere: Option<Option<i128>>,
    before: Option<Option<i128>>,
)
    requires
        call_ensures(Answers::supply_scaled, (answers, bits, scale, answer), ()),
        after@ == final(answers)@,
        x != bits || y != scale,
        call_ensures(Answers::scaled, (&after, bits, scale), found),
        call_ensures(Answers::scaled, (&after, x, y), elsewhere),
        call_ensures(Answers::scaled, (&*old(answers), x, y), before),
    ensures
        found == Some(answer),
        elsewhere == before,
        final(answers)@.floats == old(answers)@.floats,
        final(answers)@.addresses == old(answers)@.addresses,
{
    assert(after@.scaled.drop_last() =~= old(answers)@.scaled);
    assert(after@.scaled.last() == (bits, scale, answer));
}

// ---------------------------------------------------------------------------
// Scalars
// ---------------------------------------------------------------------------

/// The name of a member of an enum is looked up as the number that the type
/// gives to the first member of that name, and a name that is no member as
/// nothing.
pub proof fn law_enum_members_are_looked_up(
    t: &[char],
    name: &[char],
    base: Seq<char>,
    names: Seq<Seq<char>>,
    values: Seq<int>,
    k: int,
    r: Option<i64>,
)
    requires
        t@ == base + seq!['('] + members_text(names, values) + seq![')'],
        forall|j: int| 0 <= j < base.len() ==> #[trigger] base[j] != '(',
        0 < names.len() == values.len(),
        0 <= k <= names.len(),
        forall|j: int| 0 <= j < names.len() ==> is_clean(#[trigger] names[j]),
        forall|j: int| 0 <= j < names.len() ==> i64::MIN <= #[trigger] values[j] <= i64::MAX,
        forall|j: int| 0 <= j < k ==> (#[trigger] names[j]) != name@,
        k < names.len() ==> names[k] == name@,
        call_ensures(enum_member_value, (t, name), r),
    ensures
        k < names.len() ==> (r matches Some(i) && i == values[k]),
        k == names.len() ==> r is None,
{
    law_enum_names_stand_for_their_numbers(base, names, values, name@, k);
}

/// A text is taken as it is, and NULL as none.
pub proof fn law_texts_are_taken_as_they_are(v: &Value, r: String)
    requires
        call_ensures(value_to_str, (v,), r),
    ensures
        v@ matches Json::String(s) ==> r@ == s,
        v@ is Null ==> r@.len() == 0,
        v@ matches Json::Number(n) ==> r@ == n.text,
{
}

/// The seconds of a datetime are those of its day and of its clock.
pub proof fn law_datetimes_are_a_day_and_a_clock(
    s: &str,
    col: Seq<char>,
    r: Result<(i64, u32), String>,
)
    requires
        octet_chars(s@).len() >= 19,
        call_ensures(parse_datetime_str, (s,), r),
    ensures
        r matches Ok((secs, nanos)) ==> {
            let t = octet_chars(s@);
            let h = number(t.subrange(11, 13)) as int;
            let m = number(t.subrange(14, 16)) as int;
            let sec = number(t.subrange(17, 19)) as int;
            &&& date_of(t.take(10), col) matches Ok(d) && secs == d * 86_400 + h * 3_600 + m * 60
                + sec
            &&& h < 24 && m < 60 && sec < 60
        },
{
    law_a_datetime_is_a_day_and_a_clock(octet_chars(s@), col);
}

/// Numbers have the width of their type.
pub proof fn law_numbers_have_their_width(t: &ParsedType, r: Option<usize>)
    requires
        call_ensures(ParsedType::fixed_byte_size, (t,), r),
    ensures
        t@.tag is Bool || t@.tag is UInt8 || t@.tag is Int8 || t@.tag is Enum8 ==> r == Some(1usize),
        t@.tag is UInt16 || t@.tag is Int16 || t@.tag is Enum16 || t@.tag is Date ==> r == Some(
            2usize,
        ),
        t@.tag is UInt32 || t@.tag is Int32 || t@.tag is Float32 || t@.tag is Date32
            || t@.tag is DateTime || t@.tag is Decimal32 || t@.tag is IPv4 ==> r == Some(4usize),
        t@.tag is UInt64 || t@.tag is Int64 || t@.tag is Float64 || t@.tag is DateTime64
            || t@.tag is Decimal64 ==> r == Some(8usize),
        t@.tag is UInt128 || t@.tag is Int128 || t@.tag is Decimal128 || t@.tag is UUID
            || t@.tag is IPv6 ==> r == Some(16usize),
        t@.tag is UInt256 || t@.tag is Int256 || t@.tag is Decimal256 ==> r == Some(32usize),
        t@.tag is FixedString ==> r == t@.fixed_size,
        t@.tag is String || t@.tag is Array || t@.tag is Mapping || t@.tag is JSON ==> r is None,
{
}

} // verus!
