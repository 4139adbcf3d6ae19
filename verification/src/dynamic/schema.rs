//! Schema reflection for dynamic inserts.
//!
//! Column definitions come from `system.columns` and are cached with a TTL.
//! Each column's parsed type (carried on [`ColumnDef`]) drives the runtime
//! `RowBinary` encoding in [`crate::dynamic::encode`].

use vstd::prelude::*;
use vstd::string::*;

use crate::dynamic::encode::{column_views, described, ColumnDef, ColumnView};
use crate::dynamic::error::{DynamicError, DynamicErrorView};
use crate::dynamic::parsed_type::{parsed_type, uses_json};
use crate::text::same_text;

verus! {

// ---------------------------------------------------------------------------
// Schemas
// ---------------------------------------------------------------------------

/// Resolved schema for a single table -- an ordered list of columns.
#[derive(Debug)]
pub struct DynamicSchema {
    /// Fully qualified table name (database.table).
    pub table: String,
    /// Columns in declaration (position) order.
    pub columns: Vec<ColumnDef>,
}

/// The mathematical value of a [`DynamicSchema`].
pub struct SchemaModel {
    pub table: Seq<char>,
    pub columns: Seq<ColumnView>,
}

impl View for DynamicSchema {
    type V = SchemaModel;

    open spec fn view(&self) -> SchemaModel {
        SchemaModel { table: self.table@, columns: column_views(self.columns@) }
    }
}

/// The place of the column `name`; of several, that of the last.
pub open spec fn column_place(columns: Seq<ColumnView>, name: Seq<char>) -> Option<nat>
    decreases columns.len(),
{
    if columns.len() == 0 {
        None
    } else if columns.last().name == name {
        Some((columns.len() - 1) as nat)
    } else {
        column_place(columns.drop_last(), name)
    }
}

/// The columns that have a server-side default, or those that have none.
pub open spec fn columns_with(columns: Seq<ColumnView>, has_default: bool) -> Seq<ColumnView>
    decreases columns.len(),
{
    if columns.len() == 0 {
        seq![]
    } else if columns.last().has_default == has_default {
        columns_with(columns.drop_last(), has_default).push(columns.last())
    } else {
        columns_with(columns.drop_last(), has_default)
    }
}

/// The mathematical values of borrowed columns.
pub open spec fn borrowed_views(columns: Seq<&ColumnDef>) -> Seq<ColumnView> {
    columns.map_values(|c: &ColumnDef| c@)
}

/// Whether any column uses the JSON type, itself or within.
pub open spec fn has_json(columns: Seq<ColumnView>) -> bool {
    exists|i: int| 0 <= i < columns.len() && uses_json((#[trigger] columns[i]).ty)
}

impl DynamicSchema {
    /// Build a schema from an ordered column list.
    #[must_use]
    pub fn from_columns(table: &str, columns: Vec<ColumnDef>) -> (out: Self)
        ensures
            out@ == (SchemaModel { table: table@, columns: column_views(columns@) }),
    {
        DynamicSchema { table: table.to_owned(), columns }
    }

    /// Look up a column by name.
    #[must_use]
    pub fn column(&self, name: &str) -> (out: Option<&ColumnDef>)
        ensures
            match out {
                Some(c) => column_place(self@.columns, name@) matches Some(i) && c@
                    == self@.columns[i as int],
                None => column_place(self@.columns, name@) is None,
            },
    {
        let ghost all = self@.columns;
        let mut n: usize = self.columns.len();
        assert(all.take(n as int) =~= all);
        while n > 0
            invariant
                n <= self.columns.len(),
                all == column_views(self.columns@),
                column_place(all, name@) == column_place(all.take(n as int), name@),
            decreases n,
        {
            proof {
                assert(all.take(n as int).last() == self.columns@[n - 1]@);
                assert(all.take(n as int).drop_last() =~= all.take(n - 1));
            }
            if same_text(self.columns[n - 1].name.as_str(), name) {
                return Some(&self.columns[n - 1]);
            }
            n -= 1;
        }
        None
    }

    fn columns_by_default(&self, has_default: bool) -> (out: Vec<&ColumnDef>)
        ensures
            borrowed_views(out@) == columns_with(self@.columns, has_default),
    {
        let ghost all = self@.columns;
        let mut out: Vec<&ColumnDef> = Vec::new();
        let mut i: usize = 0;
        assert(borrowed_views(out@) =~= seq![]);
        while i < self.columns.len()
            invariant
                i <= self.columns.len(),
                all == column_views(self.columns@),
                borrowed_views(out@) == columns_with(all.take(i as int), has_default),
            decreases self.columns.len() - i,
        {
            let column = &self.columns[i];
            proof {
                assert(all.take(i + 1).last() == column@);
                assert(all.take(i + 1).drop_last() =~= all.take(i as int));
                assert(borrowed_views(out@.push(column)) =~= borrowed_views(out@).push(column@));
            }
            if column.has_default == has_default {
                out.push(column);
            }
            i += 1;
        }
        assert(all.take(i as int) =~= all);
        out
    }

    /// Columns that must appear in the INSERT (no server-side default).
    pub fn required_columns(&self) -> (out: Vec<&ColumnDef>)
        ensures
            borrowed_views(out@) == columns_with(self@.columns, false),
    {
        self.columns_by_default(false)
    }

    /// Columns that may be omitted because the server supplies a default.
    pub fn optional_columns(&self) -> (out: Vec<&ColumnDef>)
        ensures
            borrowed_views(out@) == columns_with(self@.columns, true),
    {
        self.columns_by_default(true)
    }

    /// Number of columns.
    #[must_use]
    pub fn len(&self) -> (n: usize)
        ensures
            n == self@.columns.len(),
    {
        self.columns.len()
    }

    /// Whether the schema has no columns.
    #[must_use]
    pub fn is_empty(&self) -> (yes: bool)
        ensures
            yes == (self@.columns.len() == 0),
    {
        self.columns.len() == 0
    }

    /// Whether any column uses the JSON type (including `Nullable(JSON)`, and
    /// JSON within an array or a map).
    ///
    /// When true, `RowBinary` inserts must set
    /// `input_format_binary_read_json_as_string=1`, because the encoder writes
    /// JSON values as length-prefixed strings rather than the structured
    /// path-value binary ClickHouse expects by default.
    #[must_use]
    pub fn has_json_columns(&self) -> (yes: bool)
        ensures
            yes == has_json(self@.columns),
    {
        let mut i: usize = 0;
        while i < self.columns.len()
            invariant
                i <= self.columns.len(),
                forall|k: int| 0 <= k < i ==> !uses_json((#[trigger] self@.columns[k]).ty),
            decreases self.columns.len() - i,
        {
            if self.columns[i].ty.holds_json() {
                assert(uses_json(self@.columns[i as int].ty));
                return true;
            }
            i += 1;
        }
        false
    }
}

/// Columns of the same values.
pub(crate) fn clone_columns(columns: &Vec<ColumnDef>) -> (out: Vec<ColumnDef>)
    ensures
        column_views(out@) == column_views(columns@),
{
    let mut out: Vec<ColumnDef> = Vec::new();
    let mut i: usize = 0;
    while i < columns.len()
        invariant
            i <= columns.len(),
            column_views(out@) =~= column_views(columns@).take(i as int),
        decreases columns.len() - i,
    {
        let column = columns[i].clone();
        assert(column_views(out@.push(column)) =~= column_views(out@).push(column@));
        out.push(column);
        i += 1;
    }
    assert(column_views(columns@).take(i as int) =~= column_views(columns@));
    out
}

impl Clone for DynamicSchema {
    fn clone(&self) -> (out: DynamicSchema)
        ensures
            out@ == self@,
    {
        DynamicSchema { table: self.table.clone(), columns: clone_columns(&self.columns) }
    }
}

/// The columns that rows of `system.columns` describe.
pub open spec fn described_all(rows: Seq<(String, String, String)>) -> Seq<ColumnView> {
    rows.map_values(|r: (String, String, String)| described(r.0@, r.1@, r.2@))
}

/// Rows to schema, whichever transport read them; empty means no such table.
///
/// # Errors
///
/// [`DynamicError::EmptySchema`] where there are no rows.
pub fn schema_from_system_columns(
    full_table: String,
    rows: Vec<(String, String, String)>,
) -> (r: Result<DynamicSchema, DynamicError>)
    ensures
        match r {
            Ok(s) => rows@.len() > 0 && s@ == (SchemaModel {
                table: full_table@,
                columns: described_all(rows@),
            }),
            Err(e) => rows@.len() == 0 && e@ == (DynamicErrorView::EmptySchema {
                table: full_table@,
            }),
        },
{
    let mut columns: Vec<ColumnDef> = Vec::new();
    let mut i: usize = 0;
    while i < rows.len()
        invariant
            i <= rows.len(),
            column_views(columns@) =~= described_all(rows@).take(i as int),
        decreases rows.len() - i,
    {
        let row = &rows[i];
        let column = ColumnDef::with_default_kind(
            row.0.as_str(),
            row.1.as_str(),
            row.2.as_str(),
        );
        assert(column_views(columns@.push(column)) =~= column_views(columns@).push(column@));
        columns.push(column);
        i += 1;
    }
    assert(described_all(rows@).take(i as int) =~= described_all(rows@));
    proof {
        assert(column_views(columns@).len() == rows@.len());
    }
    if columns.len() == 0 {
        return Err(DynamicError::EmptySchema { table: full_table });
    }
    Ok(DynamicSchema { table: full_table, columns })
}

/// Every column is either required or optional, never both: the two lists
/// together have as many columns as the schema, and each has the columns of
/// its kind.
pub proof fn law_required_or_optional(columns: Seq<ColumnView>)
    ensures
        columns_with(columns, false).len() + columns_with(columns, true).len() == columns.len(),
        forall|c: ColumnView, d: bool| #[trigger]
            columns_with(columns, d).contains(c) <==> columns.contains(c) && c.has_default == d,
    decreases columns.len(),
{
    if columns.len() > 0 {
        let before = columns.drop_last();
        let last = columns.last();
        law_required_or_optional(before);
        assert forall|c: ColumnView, d: bool| #[trigger]
            columns_with(columns, d).contains(c) <==> columns.contains(c) && c.has_default == d by {
            assert(columns =~= before.push(last));
            assert(before.push(last).contains(c) <==> before.contains(c) || c == last) by {
                lemma_push_contains(before, last, c);
            }
            let kept = columns_with(before, d);
            lemma_push_contains(kept, last, c);
            assert(kept.contains(c) <==> before.contains(c) && c.has_default == d);
        }
    }
}

proof fn lemma_push_contains(s: Seq<ColumnView>, x: ColumnView, c: ColumnView)
    ensures
        s.push(x).contains(c) <==> s.contains(c) || c == x,
{
    if s.contains(c) {
        let i = choose|i: int| 0 <= i < s.len() && s[i] == c;
        assert(s.push(x)[i] == c);
    }
    if c == x {
        assert(s.push(x)[s.len() as int] == c);
    }
}

// ---------------------------------------------------------------------------
// The cache
// ---------------------------------------------------------------------------

/// TTL-based schema cache. Times are nanoseconds on one clock.
pub struct DynamicSchemaCache {
    entries: Vec<CacheEntry>,
    ttl: u128,
}

struct CacheEntry {
    table: String,
    schema: DynamicSchema,
    fetched_at: u128,
}

/// A cached schema, and when it was fetched.
pub struct Cached {
    pub schema: SchemaModel,
    pub fetched_at: u128,
}

/// The mathematical value of a [`DynamicSchemaCache`].
pub struct CacheView {
    pub entries: Map<Seq<char>, Cached>,
    pub ttl: u128,
}

spec fn entry_map(entries: Seq<CacheEntry>) -> Map<Seq<char>, Cached>
    decreases entries.len(),
{
    if entries.len() == 0 {
        Map::empty()
    } else {
        let last = entries.last();
        entry_map(entries.drop_last()).insert(
            last.table@,
            Cached { schema: last.schema@, fetched_at: last.fetched_at },
        )
    }
}

/// An entry of `table` does not matter to the other tables.
proof fn lemma_entry_removed(entries: Seq<CacheEntry>, table: Seq<char>, i: int)
    requires
        0 <= i < entries.len(),
        entries[i].table@ == table,
    ensures
        entry_map(entries.remove(i)).remove(table) == entry_map(entries).remove(table),
    decreases entries.len(),
{
    let n = entries.len() - 1;
    let before = entries.drop_last();
    if i == n {
        assert(entries.remove(i) =~= before);
        assert(entry_map(entries).remove(table) =~= entry_map(before).remove(table));
    } else {
        lemma_entry_removed(before, table, i);
        assert(entries.remove(i).drop_last() =~= before.remove(i));
        assert(entries.remove(i).last() == entries.last());
        let k = entries.last().table@;
        let c = Cached { schema: entries.last().schema@, fetched_at: entries.last().fetched_at };
        let a = entry_map(before.remove(i));
        let b = entry_map(before);
        assert(a.remove(table) == b.remove(table));
        let x = a.insert(k, c).remove(table);
        let y = b.insert(k, c).remove(table);
        assert forall|t: Seq<char>| #[trigger]
            x.contains_key(t) == y.contains_key(t) && (x.contains_key(t) ==> x[t] == y[t]) by {
            assert(a.remove(table).contains_key(t) == b.remove(table).contains_key(t));
            if t != table && t != k && a.contains_key(t) {
                assert(a.remove(table)[t] == a[t]);
                assert(b.remove(table)[t] == b[t]);
            }
        }
        assert(x =~= y);
    }
}

/// A call of a [`DynamicSchemaCache`], with the clock readings it was given.
pub enum CacheCall {
    Get { table: Seq<char>, now: u128 },
    Insert { table: Seq<char>, schema: SchemaModel, now: u128 },
    Invalidate { table: Seq<char> },
    InvalidateAll,
}

impl CacheCall {
    /// Whether the call decides what is cached for `table`.
    pub open spec fn settles(self, table: Seq<char>) -> bool {
        match self {
            CacheCall::Get { .. } => false,
            CacheCall::Insert { table: t, .. } => t == table,
            CacheCall::Invalidate { table: t } => t == table,
            CacheCall::InvalidateAll => true,
        }
    }
}

/// Whether the `i`th of `calls` is an insert for `table` that no later call
/// replaced or dropped.
pub open spec fn stands(calls: Seq<CacheCall>, table: Seq<char>, i: int) -> bool {
    &&& 0 <= i < calls.len()
    &&& calls[i] is Insert && calls[i].settles(table)
    &&& forall|j: int| i < j < calls.len() ==> !(#[trigger] calls[j]).settles(table)
}

/// How much time has passed at `now` since `then`; none on a clock set back.
pub open spec fn elapsed(then: u128, now: u128) -> nat {
    if now < then {
        0
    } else {
        (now - then) as nat
    }
}

impl View for DynamicSchemaCache {
    type V = CacheView;

    closed spec fn view(&self) -> CacheView {
        CacheView { entries: entry_map(self.entries@), ttl: self.ttl }
    }
}

impl CacheView {
    /// The schema of `table`, where it is cached and not older than the TTL.
    pub open spec fn fresh(self, table: Seq<char>, now: u128) -> Option<SchemaModel> {
        if self.entries.contains_key(table) && now - self.entries[table].fetched_at < self.ttl
            && 0 < self.ttl {
            Some(self.entries[table].schema)
        } else {
            None
        }
    }

    /// The cache with the schema of `table` as of `now`.
    pub open spec fn with(self, table: Seq<char>, schema: SchemaModel, now: u128) -> CacheView {
        CacheView {
            entries: self.entries.insert(table, Cached { schema, fetched_at: now }),
            ttl: self.ttl,
        }
    }

    /// The cache without the schema of `table`.
    pub open spec fn without(self, table: Seq<char>) -> CacheView {
        CacheView { entries: self.entries.remove(table), ttl: self.ttl }
    }

    /// The cache without any schema.
    pub open spec fn emptied(self) -> CacheView {
        CacheView { entries: Map::empty(), ttl: self.ttl }
    }

    /// The cache after one call.
    pub open spec fn after(self, call: CacheCall) -> CacheView {
        match call {
            CacheCall::Get { .. } => self,
            CacheCall::Insert { table, schema, now } => self.with(table, schema, now),
            CacheCall::Invalidate { table } => self.without(table),
            CacheCall::InvalidateAll => self.emptied(),
        }
    }

    /// The cache after `calls`, one behind the other.
    pub open spec fn after_all(self, calls: Seq<CacheCall>) -> CacheView
        decreases calls.len(),
    {
        if calls.len() == 0 {
            self
        } else {
            self.after_all(calls.drop_last()).after(calls.last())
        }
    }
}

impl DynamicSchemaCache {
    /// Create a cache with the given freshness window.
    #[must_use]
    pub fn new(ttl: u128) -> (out: Self)
        ensures
            out@ == (CacheView { entries: Map::empty(), ttl }),
    {
        DynamicSchemaCache { entries: Vec::new(), ttl }
    }

    /// Return the cached schema if present and still fresh.
    #[must_use]
    pub fn get(&self, table: &str, now: u128) -> (out: Option<DynamicSchema>)
        ensures
            match out {
                Some(s) => self@.fresh(table@, now) == Some(s@),
                None => self@.fresh(table@, now) is None,
            },
    {
        let mut n: usize = self.entries.len();
        let ghost all = self.entries@;
        assert(all.take(n as int) =~= all);
        while n > 0
            invariant
                n <= self.entries.len(),
                all == self.entries@,
                self@ == (CacheView { entries: entry_map(all), ttl: self.ttl }),
                entry_map(all).contains_key(table@) == entry_map(
                    all.take(n as int),
                ).contains_key(table@),
                entry_map(all).contains_key(table@) ==> entry_map(all)[table@] == entry_map(
                    all.take(n as int),
                )[table@],
            decreases n,
        {
            let entry = &self.entries[n - 1];
            proof {
                assert(all.take(n as int).last() == *entry);
                assert(all.take(n as int).drop_last() =~= all.take(n - 1));
            }
            if same_text(entry.table.as_str(), table) {
                let fresh = self.ttl > 0 && (now < entry.fetched_at || now - entry.fetched_at
                    < self.ttl);
                return if fresh {
                    Some(entry.schema.clone())
                } else {
                    None
                };
            }
            n -= 1;
        }
        None
    }

    /// Insert or refresh a table's schema.
    pub fn insert(&mut self, table: &str, schema: DynamicSchema, now: u128)
        ensures
            final(self)@ == old(self)@.with(table@, schema@, now),
    {
        self.invalidate(table);
        let entry = CacheEntry { table: table.to_owned(), schema, fetched_at: now };
        proof {
            assert(self.entries@.push(entry).drop_last() =~= self.entries@);
        }
        self.entries.push(entry);
        assert(self@.entries =~= old(self)@.with(table@, schema@, now).entries);
    }

    /// Drop a single table, forcing a re-fetch on next access (used by the
    /// schema-mismatch recovery path).
    pub fn invalidate(&mut self, table: &str)
        ensures
            final(self)@ == old(self)@.without(table@),
    {
        let mut i: usize = 0;
        assert(entry_map(self.entries@.take(0)).remove(table@) =~= entry_map(
            self.entries@.take(0),
        ));
        assert(self@.without(table@).entries =~= old(self)@.without(table@).entries);
        while i < self.entries.len()
            invariant
                i <= self.entries.len(),
                self.ttl == old(self).ttl,
                entry_map(self.entries@.take(i as int)).remove(table@) == entry_map(
                    self.entries@.take(i as int),
                ),
                entry_map(self.entries@).remove(table@) == entry_map(old(self).entries@).remove(
                    table@,
                ),
            decreases self.entries.len() - i,
        {
            let ghost before = self.entries@;
            if same_text(self.entries[i].table.as_str(), table) {
                self.entries.remove(i);
                proof {
                    lemma_entry_removed(before, table@, i as int);
                    assert(self.entries@.take(i as int) =~= before.take(i as int));
                    assert(self.entries@ =~= before.remove(i as int));
                }
            } else {
                proof {
                    let next = before.take(i + 1);
                    assert(next.drop_last() =~= before.take(i as int));
                    assert(next.last() == before[i as int]);
                    assert(entry_map(next).remove(table@) =~= entry_map(next));
                }
                i += 1;
            }
        }
        proof {
            assert(self.entries@.take(i as int) =~= self.entries@);
        }
    }

    /// Drop all cached schemas.
    pub fn invalidate_all(&mut self)
        ensures
            final(self)@ == old(self)@.emptied(),
    {
        self.entries = Vec::new();
    }
}

/// A schema is found from the moment it is cached until its TTL has passed, and
/// not after.
pub proof fn law_cached_until_expiry(
    cache: CacheView,
    table: Seq<char>,
    schema: SchemaModel,
    fetched_at: u128,
    now: u128,
)
    requires
        fetched_at <= now,
    ensures
        cache.with(table, schema, fetched_at).fresh(table, now) == (if now - fetched_at
            < cache.ttl {
            Some(schema)
        } else {
            None
        }),
{
}

/// A schema that was dropped is not found, whenever it was cached.
pub proof fn law_invalidated(cache: CacheView, table: Seq<char>, now: u128)
    ensures
        cache.without(table).fresh(table, now) is None,
{
}

/// Caching or dropping the schema of one table leaves those of the others as
/// they were.
pub proof fn law_other_tables_untouched(
    cache: CacheView,
    table: Seq<char>,
    other: Seq<char>,
    schema: SchemaModel,
    fetched_at: u128,
    now: u128,
)
    requires
        other != table,
    ensures
        cache.with(table, schema, fetched_at).fresh(other, now) == cache.fresh(other, now),
        cache.without(table).fresh(other, now) == cache.fresh(other, now),
{
}

/// What is cached after calls is what the last call that settles it left.
proof fn lemma_after_all(ttl: u128, calls: Seq<CacheCall>, table: Seq<char>)
    ensures
        ({
            let cache = (CacheView { entries: Map::empty(), ttl }).after_all(calls);
            &&& cache.ttl == ttl
            &&& forall|i: int| #[trigger]
                stands(calls, table, i) ==> cache.entries.contains_key(table)
                    && cache.entries[table] == (Cached {
                    schema: calls[i]->schema,
                    fetched_at: calls[i]->Insert_now,
                })
            &&& (forall|i: int| !#[trigger] stands(calls, table, i))
                ==> !cache.entries.contains_key(table)
        }),
    decreases calls.len(),
{
    let empty = CacheView { entries: Map::empty(), ttl };
    let cache = empty.after_all(calls);
    if calls.len() > 0 {
        let n = calls.len() - 1;
        let before = calls.drop_last();
        lemma_after_all(ttl, before, table);
        assert forall|i: int| #[trigger] stands(calls, table, i) implies i == n || stands(
            before,
            table,
            i,
        ) by {
            if i != n {
                assert forall|j: int| i < j < before.len() implies !(
                #[trigger] before[j]).settles(table) by {
                    assert(before[j] == calls[j]);
                }
            }
        }
        if calls[n].settles(table) {
            assert forall|i: int| #[trigger] stands(calls, table, i) implies i == n by {}
            if calls[n] is Insert {
                assert(stands(calls, table, n));
            }
        } else {
            assert forall|i: int| stands(calls, table, i) == #[trigger] stands(
                before,
                table,
                i,
            ) by {
                if stands(before, table, i) {
                    assert(calls[i] == before[i]);
                    assert forall|j: int| i < j < calls.len() implies !(
                    #[trigger] calls[j]).settles(table) by {
                        if j < n {
                            assert(before[j] == calls[j]);
                        }
                    }
                }
            }
            assert(cache.entries.contains_key(table) == empty.after_all(
                before,
            ).entries.contains_key(table));
        }
    }
}

/// After any history of calls on a new cache, `get` returns the schema of the
/// last insert for the table that was neither replaced nor dropped since, as
/// long as its TTL has not passed; where there is no such insert, or it has
/// passed, nothing.
pub proof fn law_cache_over_any_history(
    ttl: u128,
    calls: Seq<CacheCall>,
    table: Seq<char>,
    now: u128,
)
    ensures
        ({
            let found = (CacheView { entries: Map::empty(), ttl }).after_all(calls).fresh(
                table,
                now,
            );
            &&& forall|i: int| #[trigger]
                stands(calls, table, i) ==> found == (if elapsed(calls[i]->Insert_now, now) < ttl {
                    Some(calls[i]->schema)
                } else {
                    None
                })
            &&& (forall|i: int| !#[trigger] stands(calls, table, i)) ==> found is None
        }),
{
    lemma_after_all(ttl, calls, table);
}

/// A schema has one column for every row that describes one, in order: each
/// with the name and the type of its own row, and with a default exactly where
/// its row names a kind of default.
pub proof fn law_rows_describe_their_columns(rows: Seq<(String, String, String)>)
    ensures
        described_all(rows).len() == rows.len(),
        forall|i: int|
            0 <= i < rows.len() ==> {
                let c = #[trigger] described_all(rows)[i];
                &&& c.name == rows[i].0@
                &&& c.type_string == rows[i].1@
                &&& c.ty == parsed_type(rows[i].1@)
                &&& c.default_kind == rows[i].2@
                &&& c.has_default <==> rows[i].2@ != Seq::<char>::empty()
            },
{
    assert forall|i: int| 0 <= i < rows.len() implies {
        let c = #[trigger] described_all(rows)[i];
        c.has_default <==> rows[i].2@ != Seq::<char>::empty()
    } by {
        if rows[i].2@.len() == 0 {
            assert(rows[i].2@ =~= Seq::<char>::empty());
        }
    }
}

} // verus!
