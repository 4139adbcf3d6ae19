//! Single-table dynamic insert with schema-mismatch recovery.
//!
//! [`DynamicInsert`] encodes each row against a [`DynamicSchema`] and says what
//! to do with it; the caller does it. Both sinks are fed the same
//! [`DynamicRow::encode`] bytes:
//!
//! - HTTP -- `FORMAT RowBinary`, written row-wise. The schema is read from
//!   `system.columns` on the first write and cached.
//! - TCP -- `FORMAT Native`, with the rows transposed into columnar blocks by
//!   [`crate::native::encode::encode_columns`]. The caller supplies the schema.
//!
//! On a schema-mismatch error the HTTP path invalidates the cached schema so
//! the next insert re-fetches.

use vstd::prelude::*;
use vstd::string::*;

use crate::dynamic::answers::{Answers, AnswersView};
use crate::dynamic::encode::{
    column_views, find_member, row_wire, ColumnDef, ColumnView, DynamicRow,
};
use crate::dynamic::error::{enc_err, refusal, DynamicError, DynamicErrorView};
use crate::dynamic::schema::{
    described_all, has_json, schema_from_system_columns, CacheView, DynamicSchema,
    DynamicSchemaCache, SchemaModel,
};
use crate::dynamic::sql::{columns_query, escape_ident, identifier, system_columns_sql};
use crate::dynamic::value::{entries, member, Json, Value};
use crate::native::encode::{
    encode_columns, encoded, header_columns, pair_texts, row_bytes, schema_views, ColumnSchema,
    SchemaView,
};
use crate::text::{chars_of, find_text, mentions, same_text};

verus! {

// ---------------------------------------------------------------------------
// Columns and statements
// ---------------------------------------------------------------------------

/// Whether a column is part of the INSERT: it is in the row, written from raw
/// bytes, or required. A column that has a default and is not supplied is
/// omitted so the server fills it (e.g. `_uuid`, `_timestamp_load`).
pub open spec fn is_selected(
    c: ColumnView,
    row: Seq<(Seq<char>, Json)>,
    raw_names: Seq<Seq<char>>,
) -> bool {
    member(row, c.name) is Some || raw_names.contains(c.name) || !c.has_default
}

/// The columns of the INSERT, in the order of the schema.
pub open spec fn selected(
    columns: Seq<ColumnView>,
    row: Seq<(Seq<char>, Json)>,
    raw_names: Seq<Seq<char>>,
) -> Seq<ColumnView>
    decreases columns.len(),
{
    if columns.len() == 0 {
        seq![]
    } else if is_selected(columns.last(), row, raw_names) {
        selected(columns.drop_last(), row, raw_names).push(columns.last())
    } else {
        selected(columns.drop_last(), row, raw_names)
    }
}

/// The texts of names.
pub open spec fn name_texts(names: Seq<&str>) -> Seq<Seq<char>> {
    names.map_values(|n: &str| n@)
}

fn is_named(names: &[&str], name: &str) -> (yes: bool)
    ensures
        yes == name_texts(names@).contains(name@),
{
    let ghost all = name_texts(names@);
    let mut i: usize = 0;
    while i < names.len()
        invariant
            i <= names.len(),
            all == name_texts(names@),
            forall|k: int| 0 <= k < i ==> #[trigger] all[k] != name@,
        decreases names.len() - i,
    {
        if same_text(names[i], name) {
            assert(all[i as int] == name@);
            return true;
        }
        i += 1;
    }
    false
}

/// Choose the columns to include in the INSERT: every column present in the
/// row, every raw-passthrough column, and every required column (no
/// server-side default).
pub fn select_columns(
    row: &[(String, Value)],
    raw_names: &[&str],
    schema: &DynamicSchema,
) -> (out: Vec<ColumnDef>)
    ensures
        column_views(out@) == selected(schema@.columns, entries(row@), name_texts(raw_names@)),
{
    let ghost all = schema@.columns;
    let mut out: Vec<ColumnDef> = Vec::new();
    let mut i: usize = 0;
    assert(column_views(out@) =~= seq![]);
    while i < schema.columns.len()
        invariant
            i <= schema.columns.len(),
            all == column_views(schema.columns@),
            column_views(out@) == selected(
                all.take(i as int),
                entries(row@),
                name_texts(raw_names@),
            ),
        decreases schema.columns.len() - i,
    {
        let column = &schema.columns[i];
        proof {
            assert(all.take(i + 1).last() == column@);
            assert(all.take(i + 1).drop_last() =~= all.take(i as int));
        }
        if find_member(row, column.name.as_str()).is_some() || is_named(
            raw_names,
            column.name.as_str(),
        ) || !column.has_default {
            let copy = column.clone();
            assert(column_views(out@.push(copy)) =~= column_views(out@).push(copy@));
            out.push(copy);
        }
        i += 1;
    }
    assert(all.take(i as int) =~= all);
    out
}

/// The names of columns, quoted and separated by commas.
pub open spec fn column_list(columns: Seq<ColumnView>) -> Seq<char>
    decreases columns.len(),
{
    if columns.len() == 0 {
        seq![]
    } else if columns.len() == 1 {
        identifier(columns.last().name)
    } else {
        column_list(columns.drop_last()) + ", "@ + identifier(columns.last().name)
    }
}

/// The INSERT statement for columns of a table.
pub open spec fn insert_statement(
    database: Seq<char>,
    table: Seq<char>,
    columns: Seq<ColumnView>,
    format: Seq<char>,
) -> Seq<char> {
    "INSERT INTO "@ + identifier(database) + "."@ + identifier(table) + " ("@ + column_list(columns)
        + ") FORMAT "@ + format
}

fn push_column_list(out: &mut String, columns: &Vec<ColumnDef>)
    ensures
        final(out)@ == old(out)@ + column_list(column_views(columns@)),
{
    let ghost all = column_views(columns@);
    let mut i: usize = 0;
    assert(out@ =~= old(out)@ + column_list(all.take(0)));
    while i < columns.len()
        invariant
            i <= columns.len(),
            all == column_views(columns@),
            out@ == old(out)@ + column_list(all.take(i as int)),
        decreases columns.len() - i,
    {
        let ghost before = out@;
        proof {
            assert(all.take(i + 1).last() == columns@[i as int]@);
            assert(all.take(i + 1).drop_last() =~= all.take(i as int));
        }
        if i > 0 {
            out.append(", ");
        }
        out.append(escape_ident(columns[i].name.as_str()).as_str());
        i += 1;
        assert(out@ =~= old(out)@ + column_list(all.take(i as int)));
    }
    assert(all.take(i as int) =~= all);
}

/// The INSERT statement for columns of a table.
pub fn insert_sql(database: &str, table: &str, columns: &Vec<ColumnDef>, format: &str) -> (out:
    String)
    ensures
        out@ == insert_statement(database@, table@, column_views(columns@), format@),
{
    let mut out = "INSERT INTO ".to_owned();
    out.append(escape_ident(database).as_str());
    out.append(".");
    out.append(escape_ident(table).as_str());
    out.append(" (");
    push_column_list(&mut out, columns);
    out.append(") FORMAT ");
    out.append(format);
    out
}

/// Whether a transport error says that the cached schema is stale: explicit
/// column/type errors, and the data-format errors that indicate schema drift.
pub open spec fn says_drift(message: Seq<char>) -> bool {
    ||| mentions(message, "UNKNOWN_IDENTIFIER"@)
    ||| mentions(message, "NO_SUCH_COLUMN"@)
    ||| mentions(message, "THERE_IS_NO_COLUMN"@)
    ||| mentions(message, "TYPE_MISMATCH"@)
    ||| mentions(message, "ILLEGAL_COLUMN"@)
    ||| mentions(message, "CANNOT_PARSE"@)
    ||| mentions(message, "cannot parse"@)
    ||| mentions(message, "INCORRECT_DATA"@)
    ||| mentions(message, "incorrect data"@)
    ||| mentions(message, "Code: 117"@)
}

/// A transport error as an error of the insert.
pub open spec fn classified(full_table: Seq<char>, message: Seq<char>) -> DynamicErrorView {
    if says_drift(message) {
        DynamicErrorView::SchemaMismatch { table: full_table, message }
    } else {
        refusal(seq![], message)
    }
}

/// Classify a transport error as a schema mismatch (cached schema is stale) or
/// a generic encoding/transport error.
pub fn classify_error(full_table: &str, message: &str) -> (e: DynamicError)
    ensures
        e@ == classified(full_table@, message@),
{
    let chars = chars_of(message);
    let msg = chars.as_slice();
    let mismatch = find_text(msg, "UNKNOWN_IDENTIFIER").is_some() || find_text(
        msg,
        "NO_SUCH_COLUMN",
    ).is_some() || find_text(msg, "THERE_IS_NO_COLUMN").is_some() || find_text(
        msg,
        "TYPE_MISMATCH",
    ).is_some() || find_text(msg, "ILLEGAL_COLUMN").is_some() || find_text(
        msg,
        "CANNOT_PARSE",
    ).is_some() || find_text(msg, "cannot parse").is_some() || find_text(
        msg,
        "INCORRECT_DATA",
    ).is_some() || find_text(msg, "incorrect data").is_some() || find_text(
        msg,
        "Code: 117",
    ).is_some();
    if mismatch {
        DynamicError::SchemaMismatch { table: full_table.to_owned(), message: message.to_owned() }
    } else {
        let column = String::new();
        assert(column@ =~= seq![]);
        DynamicError::EncodingError { column, message: message.to_owned() }
    }
}

// ---------------------------------------------------------------------------
// The insert
// ---------------------------------------------------------------------------

/// The transport that rows are written through.
#[derive(Debug, Clone, Copy, PartialEq, Eq, Structural)]
pub enum Backend {
    /// Rows go out one by one, and the schema comes from `system.columns`.
    Http,
    /// Rows go out in blocks of `block_rows`, against the caller's schema.
    Tcp {
        /// How many rows are held for one block.
        block_rows: u64,
    },
}

/// The open INSERT: the column subset fixed by the first row, and what the
/// sink holds.
struct Active {
    columns: Vec<ColumnDef>,
    /// Native block headers for the insert columns, parsed once.
    native: Vec<ColumnSchema>,
    /// The server's protocol revision.
    revision: u64,
    /// `RowBinary` rows held for the next Native block.
    block: Vec<Vec<u8>>,
}

/// The mathematical value of an open INSERT.
pub struct ActiveView {
    pub columns: Seq<ColumnView>,
    pub native: Seq<SchemaView>,
    pub revision: u64,
    pub block: Seq<Seq<u8>>,
}

impl View for Active {
    type V = ActiveView;

    closed spec fn view(&self) -> ActiveView {
        ActiveView {
            columns: column_views(self.columns@),
            native: schema_views(self.native@),
            revision: self.revision,
            block: row_bytes(self.block@),
        }
    }
}

/// The sink to open for an INSERT.
pub struct Opening {
    /// The INSERT statement.
    pub sql: String,
    /// Whether the statement needs
    /// `input_format_binary_read_json_as_string=1`, which makes a `RowBinary`
    /// reader take a length-prefixed string as a JSON value.
    pub json_as_string: bool,
    columns: Vec<ColumnDef>,
    native: Vec<ColumnSchema>,
}

/// The mathematical value of an [`Opening`].
pub struct OpeningView {
    pub sql: Seq<char>,
    pub json_as_string: bool,
    pub columns: Seq<ColumnView>,
    pub native: Seq<SchemaView>,
}

impl View for Opening {
    type V = OpeningView;

    closed spec fn view(&self) -> OpeningView {
        OpeningView {
            sql: self.sql@,
            json_as_string: self.json_as_string,
            columns: column_views(self.columns@),
            native: schema_views(self.native@),
        }
    }
}

/// One Native block.
pub struct Block {
    /// The columns' headers and data.
    pub bytes: Vec<u8>,
    /// How many columns the block has.
    pub num_columns: u64,
    /// How many rows the block has.
    pub num_rows: u64,
}

/// The mathematical value of a [`Block`].
pub struct SentBlock {
    pub bytes: Seq<u8>,
    pub num_columns: nat,
    pub num_rows: nat,
}

impl View for Block {
    type V = SentBlock;

    open spec fn view(&self) -> SentBlock {
        SentBlock {
            bytes: self.bytes@,
            num_columns: self.num_columns as nat,
            num_rows: self.num_rows as nat,
        }
    }
}

/// What a write asks of the caller.
pub enum Step {
    /// Run this query, hand its rows to [`DynamicInsert::supply_schema`], and
    /// write the row again.
    FetchSchema(String),
    /// Open this sink, report it to [`DynamicInsert::opened`], and write the
    /// row again.
    Open(Opening),
    /// Hand these bytes to the sink; the row is written.
    Row(Vec<u8>),
    /// Send this block, and report the outcome to
    /// [`DynamicInsert::block_sent`].
    SendBlock(Block),
    /// Nothing; the row is held for the next block.
    Held,
}

/// The mathematical value of a [`Step`].
pub enum StepView {
    FetchSchema(Seq<char>),
    Open(OpeningView),
    Row(Seq<u8>),
    SendBlock(SentBlock),
    Held,
}

impl View for Step {
    type V = StepView;

    open spec fn view(&self) -> StepView {
        match *self {
            Step::FetchSchema(sql) => StepView::FetchSchema(sql@),
            Step::Open(o) => StepView::Open(o@),
            Step::Row(b) => StepView::Row(b@),
            Step::SendBlock(b) => StepView::SendBlock(b@),
            Step::Held => StepView::Held,
        }
    }
}

/// Dynamic insert for a single table.
///
/// Encodes runtime-shaped rows to ClickHouse using a schema fetched from
/// `system.columns`. As simple to drive as `JSONEachRow`, but binary on the
/// wire so the server skips JSON parsing.
pub struct DynamicInsert {
    backend: Backend,
    database: String,
    table: String,
    schema: Option<DynamicSchema>,
    active: Option<Active>,
    rows_written: u64,
}

/// The mathematical value of a [`DynamicInsert`].
pub struct InsertView {
    pub backend: Backend,
    pub database: Seq<char>,
    pub table: Seq<char>,
    pub schema: Option<SchemaModel>,
    pub active: Option<ActiveView>,
    pub rows_written: u64,
}

impl View for DynamicInsert {
    type V = InsertView;

    closed spec fn view(&self) -> InsertView {
        InsertView {
            backend: self.backend,
            database: self.database@,
            table: self.table@,
            schema: match self.schema {
                Some(s) => Some(s@),
                None => None,
            },
            active: match self.active {
                Some(a) => Some(a@),
                None => None,
            },
            rows_written: self.rows_written,
        }
    }
}

/// The headers of columns.
pub open spec fn headers(columns: Seq<ColumnView>) -> Seq<(Seq<char>, Seq<char>)> {
    columns.map_values(|c: ColumnView| (c.name, c.type_string))
}

/// One Native block of held rows.
pub open spec fn packed(active: ActiveView, full_table: Seq<char>) -> Result<
    SentBlock,
    DynamicErrorView,
> {
    match encoded(active.block, active.native, active.revision) {
        Ok(bytes) => Ok(
            SentBlock { bytes, num_columns: active.native.len(), num_rows: active.block.len() },
        ),
        Err(e) => Err(classified(full_table, e.message())),
    }
}

impl InsertView {
    /// The fully qualified `database.table`.
    pub open spec fn full_table(self) -> Seq<char> {
        self.database + "."@ + self.table
    }

    /// The insert once it has looked for its schema in the cache.
    pub open spec fn with_schema(self, cache: CacheView, now: u128) -> InsertView {
        match (self.schema, self.backend, cache.fresh(self.full_table(), now)) {
            (None, Backend::Http, Some(s)) => InsertView { schema: Some(s), ..self },
            _ => self,
        }
    }

    /// The sink that the first row opens.
    pub open spec fn opening(
        self,
        row: Seq<(Seq<char>, Json)>,
        raw_names: Seq<Seq<char>>,
    ) -> Result<OpeningView, DynamicErrorView> {
        match self.schema {
            None => Err(refusal(seq![], "schema not available after fetch"@)),
            Some(schema) => {
                let columns = selected(schema.columns, row, raw_names);
                if columns.len() == 0 {
                    Err(refusal(seq![], "no columns to insert for this row"@))
                } else {
                    match self.backend {
                        Backend::Http => Ok(
                            OpeningView {
                                sql: insert_statement(
                                    self.database,
                                    self.table,
                                    columns,
                                    "RowBinary"@,
                                ),
                                json_as_string: has_json(schema.columns),
                                columns,
                                native: seq![],
                            },
                        ),
                        Backend::Tcp { .. } => match header_columns(headers(columns)) {
                            Ok(native) => Ok(
                                OpeningView {
                                    sql: insert_statement(
                                        self.database,
                                        self.table,
                                        columns,
                                        "Native"@,
                                    ),
                                    json_as_string: false,
                                    columns,
                                    native,
                                },
                            ),
                            Err(e) => Err(classified(self.full_table(), e.message())),
                        },
                    }
                }
            },
        }
    }

    /// The insert with `block` held.
    pub open spec fn holding(self, block: Seq<Seq<u8>>) -> InsertView {
        match self.active {
            Some(a) => InsertView { active: Some(ActiveView { block, ..a }), ..self },
            None => self,
        }
    }

    /// The insert with one more row written.
    pub open spec fn counted(self) -> InsertView {
        InsertView { rows_written: (self.rows_written + 1) as u64, ..self }
    }

    /// What becomes of an encoded row.
    pub open spec fn taken(self, bytes: Seq<u8>) -> (InsertView, Result<
        StepView,
        DynamicErrorView,
    >) {
        match self.backend {
            Backend::Http => (self.counted(), Ok(StepView::Row(bytes))),
            Backend::Tcp { block_rows } => {
                let next = self.holding(self.active->Some_0.block.push(bytes));
                if next.active->Some_0.block.len() >= block_rows {
                    match packed(next.active->Some_0, self.full_table()) {
                        Ok(b) => (next.holding(seq![]), Ok(StepView::SendBlock(b))),
                        Err(e) => (next, Err(e)),
                    }
                } else {
                    (next.counted(), Ok(StepView::Held))
                }
            },
        }
    }

    /// One step towards writing a row: the insert behind it, and what it asks.
    pub open spec fn step(
        self,
        cache: CacheView,
        now: u128,
        row: Seq<(Seq<char>, Json)>,
        raw_names: Seq<Seq<char>>,
        raw: Option<(Seq<char>, Seq<u8>)>,
        a: AnswersView,
    ) -> (InsertView, Result<StepView, DynamicErrorView>) {
        let s = self.with_schema(cache, now);
        if s.schema is None && s.backend is Http {
            (s, Ok(StepView::FetchSchema(columns_query(s.database, s.table))))
        } else {
            match s.active {
                None => (
                    s,
                    match s.opening(row, raw_names) {
                        Ok(o) => Ok(StepView::Open(o)),
                        Err(e) => Err(e),
                    },
                ),
                Some(active) => match row_wire(row, active.columns, raw, a) {
                    Ok(bytes) => s.taken(bytes),
                    Err(e) => (s, Err(e)),
                },
            }
        }
    }

    /// The insert without its schema, where the schema is a cached one.
    pub open spec fn without_schema(self) -> InsertView {
        match self.backend {
            Backend::Http => InsertView { schema: None, ..self },
            Backend::Tcp { .. } => self,
        }
    }
}

/// A cache without the schema of the table that an insert writes to. Over TCP
/// the caller owns the schema.
pub open spec fn dropped(cache: CacheView, insert: InsertView) -> CacheView {
    match insert.backend {
        Backend::Http => cache.without(insert.full_table()),
        Backend::Tcp { .. } => cache,
    }
}

/// The optional raw bytes of a column, by their views.
pub open spec fn raw_view(raw: Option<(&str, &[u8])>) -> Option<(Seq<char>, Seq<u8>)> {
    match raw {
        Some((name, bytes)) => Some((name@, bytes@)),
        None => None,
    }
}

/// The names of raw columns.
pub open spec fn raw_names_of(raw_columns: Seq<(&str, &[u8])>) -> Seq<Seq<char>> {
    raw_columns.map_values(|c: (&str, &[u8])| c.0@)
}

impl DynamicInsert {
    /// Insert over HTTP. The schema is fetched from `system.columns` on the
    /// first write and cached.
    pub fn http(database: &str, table: &str) -> (out: Self)
        ensures
            out@ == (InsertView {
                backend: Backend::Http,
                database: database@,
                table: table@,
                schema: None,
                active: None,
                rows_written: 0,
            }),
    {
        DynamicInsert {
            backend: Backend::Http,
            database: database.to_owned(),
            table: table.to_owned(),
            schema: None,
            active: None,
            rows_written: 0,
        }
    }

    /// Insert over the native protocol against a caller-supplied schema, in
    /// blocks of `block_rows` rows. There is nothing to fetch or cache here.
    pub fn tcp(database: &str, table: &str, schema: DynamicSchema, block_rows: u64) -> (out: Self)
        ensures
            out@ == (InsertView {
                backend: Backend::Tcp { block_rows },
                database: database@,
                table: table@,
                schema: Some(schema@),
                active: None,
                rows_written: 0,
            }),
    {
        DynamicInsert {
            backend: Backend::Tcp { block_rows },
            database: database.to_owned(),
            table: table.to_owned(),
            schema: Some(schema),
            active: None,
            rows_written: 0,
        }
    }

    /// The fully qualified `database.table`.
    pub fn full_table(&self) -> (out: String)
        ensures
            out@ == self@.full_table(),
    {
        let mut out = self.database.clone();
        out.append(".");
        out.append(self.table.as_str());
        out
    }

    /// Take the schema from the cache if it is not already held.
    fn ensure_schema(&mut self, cache: &DynamicSchemaCache, now: u128)
        ensures
            final(self)@ == old(self)@.with_schema(cache@, now),
    {
        if self.schema.is_some() || self.backend != Backend::Http {
            return;
        }
        let full = self.full_table();
        if let Some(cached) = cache.get(full.as_str(), now) {
            self.schema = Some(cached);
        }
    }

    /// Take the rows of the `system.columns` query as the schema, and cache it.
    ///
    /// # Errors
    ///
    /// [`DynamicError::EmptySchema`] where there are no rows.
    pub fn supply_schema(
        &mut self,
        cache: &mut DynamicSchemaCache,
        now: u128,
        rows: Vec<(String, String, String)>,
    ) -> (r: Result<(), DynamicError>)
        ensures
            ({
                let full = old(self)@.full_table();
                let schema = SchemaModel { table: full, columns: described_all(rows@) };
                match r {
                    Ok(_) => {
                        &&& rows@.len() > 0
                        &&& final(self)@ == (InsertView { schema: Some(schema), ..old(self)@ })
                        &&& final(cache)@ == old(cache)@.with(full, schema, now)
                    },
                    Err(e) => {
                        &&& rows@.len() == 0
                        &&& e@ == (DynamicErrorView::EmptySchema { table: full })
                        &&& final(self)@ == old(self)@
                        &&& final(cache)@ == old(cache)@
                    },
                }
            }),
    {
        let full = self.full_table();
        match schema_from_system_columns(full.clone(), rows) {
            Ok(schema) => {
                cache.insert(full.as_str(), schema.clone(), now);
                self.schema = Some(schema);
                Ok(())
            },
            Err(e) => Err(e),
        }
    }

    /// The headers of columns.
    fn headers_of(columns: &Vec<ColumnDef>) -> (out: Vec<(String, String)>)
        ensures
            pair_texts(out@) == headers(column_views(columns@)),
    {
        let ghost all = headers(column_views(columns@));
        let mut out: Vec<(String, String)> = Vec::new();
        let mut i: usize = 0;
        while i < columns.len()
            invariant
                i <= columns.len(),
                all == headers(column_views(columns@)),
                pair_texts(out@) =~= all.take(i as int),
            decreases columns.len() - i,
        {
            let pair = (columns[i].name.clone(), columns[i].type_string.clone());
            assert(pair_texts(out@.push(pair)) =~= pair_texts(out@).push((pair.0@, pair.1@)));
            out.push(pair);
            i += 1;
        }
        assert(all.take(i as int) =~= all);
        out
    }

    /// On the first row, fix the column subset and the sink to open.
    ///
    /// `raw_names` are column names supplied via raw passthrough (e.g. `_json`)
    /// that must be in the INSERT even if absent from the row map.
    fn plan(&self, row: &[(String, Value)], raw_names: &[&str]) -> (r: Result<
        Opening,
        DynamicError,
    >)
        ensures
            match r {
                Ok(o) => self@.opening(entries(row@), name_texts(raw_names@)) == Ok::<
                    OpeningView,
                    DynamicErrorView,
                >(o@),
                Err(e) => self@.opening(entries(row@), name_texts(raw_names@)) == Err::<
                    OpeningView,
                    DynamicErrorView,
                >(e@),
            },
    {
        let schema = match &self.schema {
            Some(s) => s,
            None => {
                proof {
                    assert(""@ =~= seq![]) by {
                        reveal_strlit("");
                    }
                }
                return Err(enc_err("", "schema not available after fetch"));
            },
        };
        let columns = select_columns(row, raw_names, schema);
        proof {
            assert(column_views(columns@).len() == columns@.len());
            assert(""@ =~= seq![]) by {
                reveal_strlit("");
            }
        }
        if columns.len() == 0 {
            return Err(enc_err("", "no columns to insert for this row"));
        }
        match self.backend {
            Backend::Http => {
                let native: Vec<ColumnSchema> = Vec::new();
                assert(schema_views(native@) =~= seq![]);
                Ok(
                    Opening {
                        sql: insert_sql(
                            self.database.as_str(),
                            self.table.as_str(),
                            &columns,
                            "RowBinary",
                        ),
                        json_as_string: schema.has_json_columns(),
                        columns,
                        native,
                    },
                )
            },
            Backend::Tcp { .. } => {
                let full = self.full_table();
                let headers = DynamicInsert::headers_of(&columns);
                match ColumnSchema::from_headers(headers.as_slice()) {
                    Ok(native) => Ok(
                        Opening {
                            sql: insert_sql(
                                self.database.as_str(),
                                self.table.as_str(),
                                &columns,
                                "Native",
                            ),
                            json_as_string: false,
                            columns,
                            native,
                        },
                    ),
                    Err(e) => Err(classify_error(full.as_str(), e.message().as_str())),
                }
            },
        }
    }

    /// The sink is open; over TCP, to a server of this protocol revision.
    pub fn opened(&mut self, opening: Opening, revision: u64)
        ensures
            final(self)@ == (InsertView {
                active: Some(
                    ActiveView {
                        columns: opening@.columns,
                        native: opening@.native,
                        revision,
                        block: seq![],
                    },
                ),
                ..old(self)@
            }),
    {
        let block: Vec<Vec<u8>> = Vec::new();
        assert(row_bytes(block@) =~= seq![]);
        self.active = Some(
            Active { columns: opening.columns, native: opening.native, revision, block },
        );
    }

    /// The sink could not be opened.
    pub fn open_failed(&self, message: &str) -> (e: DynamicError)
        ensures
            e@ == classified(self@.full_table(), message@),
    {
        classify_error(self.full_table().as_str(), message)
    }

    /// One step towards writing a row: encode it, and buffer it for insert.
    /// Asks for the schema and for the sink first, where they are missing.
    ///
    /// # Errors
    ///
    /// Returns [`DynamicError`] on an unsupported column type or an encoding
    /// failure.
    pub fn write_map(
        &mut self,
        cache: &DynamicSchemaCache,
        now: u128,
        row: &[(String, Value)],
        answers: &Answers,
    ) -> (r: Result<Step, DynamicError>)
        requires
            old(self)@.rows_written < u64::MAX,
        ensures
            ({
                let (next, s) = old(self)@.step(
                    cache@,
                    now,
                    entries(row@),
                    seq![],
                    None,
                    answers@,
                );
                &&& final(self)@ == next
                &&& match r {
                    Ok(x) => s == Ok::<StepView, DynamicErrorView>(x@),
                    Err(e) => s == Err::<StepView, DynamicErrorView>(e@),
                }
            }),
    {
        let none: Vec<&str> = Vec::new();
        assert(name_texts(none@) =~= seq![]);
        self.write(cache, now, row, none.as_slice(), None, answers)
    }

    /// Like [`write_map`][Self::write_map], but the named columns are written
    /// from pre-encoded raw bytes (e.g. the original payload for `_json`),
    /// avoiding a re-serialise. Only the first raw column is threaded through
    /// the encoder's zero-copy passthrough; any others fall back to the row map.
    ///
    /// # Errors
    ///
    /// As [`write_map`][Self::write_map].
    pub fn write_map_with_raw(
        &mut self,
        cache: &DynamicSchemaCache,
        now: u128,
        row: &[(String, Value)],
        raw_columns: &[(&str, &[u8])],
        answers: &Answers,
    ) -> (r: Result<Step, DynamicError>)
        requires
            old(self)@.rows_written < u64::MAX,
        ensures
            ({
                let (next, s) = old(self)@.step(
                    cache@,
                    now,
                    entries(row@),
                    raw_names_of(raw_columns@),
                    if raw_columns@.len() > 0 {
                        Some((raw_columns@[0].0@, raw_columns@[0].1@))
                    } else {
                        None
                    },
                    answers@,
                );
                &&& final(self)@ == next
                &&& match r {
                    Ok(x) => s == Ok::<StepView, DynamicErrorView>(x@),
                    Err(e) => s == Err::<StepView, DynamicErrorView>(e@),
                }
            }),
    {
        let mut names: Vec<&str> = Vec::new();
        let mut i: usize = 0;
        while i < raw_columns.len()
            invariant
                i <= raw_columns.len(),
                name_texts(names@) =~= raw_names_of(raw_columns@).take(i as int),
            decreases raw_columns.len() - i,
        {
            let name = raw_columns[i].0;
            assert(name_texts(names@.push(name)) =~= name_texts(names@).push(name@));
            names.push(name);
            i += 1;
        }
        assert(raw_names_of(raw_columns@).take(i as int) =~= raw_names_of(raw_columns@));
        let raw: Option<(&str, &[u8])> = if raw_columns.len() > 0 {
            Some((raw_columns[0].0, raw_columns[0].1))
        } else {
            None
        };
        self.write(cache, now, row, names.as_slice(), raw, answers)
    }

    fn write(
        &mut self,
        cache: &DynamicSchemaCache,
        now: u128,
        row: &[(String, Value)],
        raw_names: &[&str],
        raw: Option<(&str, &[u8])>,
        answers: &Answers,
    ) -> (r: Result<Step, DynamicError>)
        requires
            old(self)@.rows_written < u64::MAX,
        ensures
            ({
                let (next, s) = old(self)@.step(
                    cache@,
                    now,
                    entries(row@),
                    name_texts(raw_names@),
                    raw_view(raw),
                    answers@,
                );
                &&& final(self)@ == next
                &&& match r {
                    Ok(x) => s == Ok::<StepView, DynamicErrorView>(x@),
                    Err(e) => s == Err::<StepView, DynamicErrorView>(e@),
                }
            }),
    {
        self.ensure_schema(cache, now);
        if self.schema.is_none() && self.backend == Backend::Http {
            return Ok(
                Step::FetchSchema(
                    system_columns_sql(self.database.as_str(), self.table.as_str()),
                ),
            );
        }
        let encoded_row = match &self.active {
            None => {
                return match self.plan(row, raw_names) {
                    Ok(o) => Ok(Step::Open(o)),
                    Err(e) => Err(e),
                };
            },
            Some(active) => {
                let line = match raw {
                    Some((json_col, raw_bytes)) => DynamicRow::with_raw(
                        row,
                        active.columns.as_slice(),
                        raw_bytes,
                        json_col,
                    ),
                    None => DynamicRow::new(row, active.columns.as_slice()),
                };
                line.encode(answers)
            },
        };
        match encoded_row {
            Ok(bytes) => self.take_row(bytes),
            Err(e) => Err(e),
        }
    }

    /// Pass an encoded row on, or hold it for the next block.
    fn take_row(&mut self, bytes: Vec<u8>) -> (r: Result<Step, DynamicError>)
        requires
            old(self)@.rows_written < u64::MAX,
            old(self)@.active is Some,
        ensures
            final(self)@ == old(self)@.taken(bytes@).0,
            match r {
                Ok(x) => old(self)@.taken(bytes@).1 == Ok::<StepView, DynamicErrorView>(x@),
                Err(e) => old(self)@.taken(bytes@).1 == Err::<StepView, DynamicErrorView>(e@),
            },
    {
        let block_rows: u64 = match self.backend {
            Backend::Http => {
                self.rows_written = self.rows_written + 1;
                return Ok(Step::Row(bytes));
            },
            Backend::Tcp { block_rows } => block_rows,
        };
        let full = self.full_table();
        let mut active = match self.active.take() {
            Some(a) => a,
            None => return Ok(Step::Held),
        };
        proof {
            assert(row_bytes(active.block@.push(bytes)) =~= row_bytes(active.block@).push(bytes@));
        }
        active.block.push(bytes);
        if (active.block.len() as u64) < block_rows {
            self.active = Some(active);
            self.rows_written = self.rows_written + 1;
            return Ok(Step::Held);
        }
        match pack(&active, full.as_str()) {
            Ok(block) => {
                active.block = Vec::new();
                assert(row_bytes(active.block@) =~= seq![]);
                self.active = Some(active);
                Ok(Step::SendBlock(block))
            },
            Err(e) => {
                self.active = Some(active);
                Err(e)
            },
        }
    }

    /// A block was sent; its last row is then written.
    ///
    /// # Errors
    ///
    /// The classified failure to send it.
    pub fn block_sent(&mut self, outcome: Result<(), String>) -> (r: Result<(), DynamicError>)
        requires
            old(self)@.rows_written < u64::MAX,
        ensures
            match outcome {
                Ok(_) => r is Ok && final(self)@ == old(self)@.counted(),
                Err(m) => {
                    &&& r matches Err(e) && e@ == classified(old(self)@.full_table(), m@)
                    &&& final(self)@ == old(self)@
                },
            },
    {
        match outcome {
            Ok(()) => {
                self.rows_written = self.rows_written + 1;
                Ok(())
            },
            Err(m) => Err(classify_error(self.full_table().as_str(), m.as_str())),
        }
    }

    /// Finish the INSERT: the block of the rows that are still held, if any, is
    /// to be sent before the sink is closed. Where it fails, the sink is to be
    /// aborted.
    ///
    /// # Errors
    ///
    /// The classified failure to make the block.
    pub fn end(&mut self) -> (r: Result<Option<Block>, DynamicError>)
        ensures
            final(self)@ == (InsertView { active: None, ..old(self)@ }),
            match old(self)@.active {
                Some(a) if old(self)@.backend is Tcp && a.block.len() > 0 => match packed(
                    a,
                    old(self)@.full_table(),
                ) {
                    Ok(b) => r matches Ok(Some(x)) && x@ == b,
                    Err(e) => r matches Err(x) && x@ == e,
                },
                _ => r matches Ok(None),
            },
    {
        let full = self.full_table();
        let active = match self.active.take() {
            Some(a) => a,
            None => return Ok(None),
        };
        if self.backend == Backend::Http || active.block.len() == 0 {
            return Ok(None);
        }
        match pack(&active, full.as_str()) {
            Ok(b) => Ok(Some(b)),
            Err(e) => Err(e),
        }
    }

    /// The sink was closed: the number of rows written.
    ///
    /// On a schema-mismatch error the cached schema is invalidated so the next
    /// insert re-fetches from `system.columns`.
    ///
    /// # Errors
    ///
    /// The classified rejection of the insert.
    pub fn ended(&mut self, cache: &mut DynamicSchemaCache, outcome: Result<(), String>) -> (r:
        Result<u64, DynamicError>)
        ensures
            match outcome {
                Ok(_) => {
                    &&& r matches Ok(n) && n == old(self)@.rows_written
                    &&& final(self)@ == old(self)@
                    &&& final(cache)@ == old(cache)@
                },
                Err(m) => {
                    &&& r matches Err(e) && e@ == classified(old(self)@.full_table(), m@)
                    &&& if says_drift(m@) {
                        &&& final(self)@ == old(self)@.without_schema()
                        &&& final(cache)@ == dropped(old(cache)@, old(self)@)
                    } else {
                        &&& final(self)@ == old(self)@
                        &&& final(cache)@ == old(cache)@
                    }
                },
            },
    {
        match outcome {
            Ok(()) => Ok(self.rows_written),
            Err(m) => {
                let e = classify_error(self.full_table().as_str(), m.as_str());
                if let DynamicError::SchemaMismatch { .. } = &e {
                    self.invalidate_schema(cache);
                }
                Err(e)
            },
        }
    }

    /// Invalidate the cached schema, forcing a re-fetch on the next insert.
    /// A no-op on the TCP path, where the caller owns the schema.
    pub fn invalidate_schema(&mut self, cache: &mut DynamicSchemaCache)
        ensures
            final(self)@ == old(self)@.without_schema(),
            final(cache)@ == dropped(old(cache)@, old(self)@),
    {
        if self.backend == Backend::Http {
            let full = self.full_table();
            cache.invalidate(full.as_str());
            self.schema = None;
        }
    }

    /// Number of rows written so far.
    #[must_use]
    pub fn rows_written(&self) -> (n: u64)
        ensures
            n == self@.rows_written,
    {
        self.rows_written
    }

    /// The resolved schema, if it has been loaded.
    #[must_use]
    pub fn schema(&self) -> (out: Option<&DynamicSchema>)
        ensures
            match out {
                Some(s) => self@.schema == Some(s@),
                None => self@.schema is None,
            },
    {
        match &self.schema {
            Some(s) => Some(s),
            None => None,
        }
    }
}

/// Transpose the buffered `RowBinary` rows into one Native block.
fn pack(active: &Active, full_table: &str) -> (r: Result<Block, DynamicError>)
    ensures
        match r {
            Ok(b) => packed(active@, full_table@) == Ok::<SentBlock, DynamicErrorView>(b@),
            Err(e) => packed(active@, full_table@) == Err::<SentBlock, DynamicErrorView>(e@),
        },
{
    match encode_columns(active.block.as_slice(), active.native.as_slice(), active.revision) {
        Ok(bytes) => Ok(
            Block {
                bytes,
                num_columns: active.native.len() as u64,
                num_rows: active.block.len() as u64,
            },
        ),
        Err(e) => Err(classify_error(full_table, e.message().as_str())),
    }
}

// ---------------------------------------------------------------------------
// Laws
// ---------------------------------------------------------------------------

/// The INSERT has the columns that the row supplies and those that are
/// required, and leaves out only columns that the server fills.
pub proof fn law_selected_columns(
    columns: Seq<ColumnView>,
    row: Seq<(Seq<char>, Json)>,
    raw_names: Seq<Seq<char>>,
    c: ColumnView,
)
    ensures
        selected(columns, row, raw_names).contains(c) <==> columns.contains(c) && is_selected(
            c,
            row,
            raw_names,
        ),
    decreases columns.len(),
{
    if columns.len() > 0 {
        let before = columns.drop_last();
        let last = columns.last();
        law_selected_columns(before, row, raw_names, c);
        assert(columns =~= before.push(last));
        lemma_pushed(before, last, c);
        lemma_pushed(selected(before, row, raw_names), last, c);
    }
}

proof fn lemma_pushed(s: Seq<ColumnView>, x: ColumnView, c: ColumnView)
    ensures
        s.push(x).contains(c) <==> s.contains(c) || c == x,
{
    if s.contains(c) {
        let i = choose|i: int| 0 <= i < s.len() && s[i] == c;
        assert(s.push(x)[i] == c);
    }
    if c == x {
        assert(s.push(x)[s.len() as int] == c);
    }
}

/// Once the server has rejected an insert over HTTP for its schema, the next
/// write over the same cache asks for the schema again.
pub proof fn law_mismatch_refetches(
    insert: InsertView,
    cache: CacheView,
    now: u128,
    row: Seq<(Seq<char>, Json)>,
    raw_names: Seq<Seq<char>>,
    raw: Option<(Seq<char>, Seq<u8>)>,
    a: AnswersView,
)
    requires
        insert.backend is Http,
    ensures
        insert.without_schema().step(dropped(cache, insert), now, row, raw_names, raw, a).1
            == Ok::<StepView, DynamicErrorView>(
            StepView::FetchSchema(columns_query(insert.database, insert.table)),
        ),
{
}

/// Over HTTP a row is either refused, with nothing counted, or handed on as it
/// is encoded, and counted once.
pub proof fn law_http_counts_rows(
    insert: InsertView,
    cache: CacheView,
    now: u128,
    row: Seq<(Seq<char>, Json)>,
    raw_names: Seq<Seq<char>>,
    raw: Option<(Seq<char>, Seq<u8>)>,
    a: AnswersView,
)
    requires
        insert.backend is Http,
        insert.rows_written < u64::MAX,
    ensures
        ({
            let (next, r) = insert.step(cache, now, row, raw_names, raw, a);
            match r {
                Ok(StepView::Row(bytes)) => {
                    &&& next.rows_written == insert.rows_written + 1
                    &&& insert.active matches Some(x) && row_wire(row, x.columns, raw, a) == Ok::<
                        Seq<u8>,
                        DynamicErrorView,
                    >(bytes)
                },
                _ => next.rows_written == insert.rows_written,
            }
        }),
{
}

} // verus!
