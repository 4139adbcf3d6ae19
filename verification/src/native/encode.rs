//! Columnar block encoder for native INSERT.
//!
//! Transposes row-oriented `RowBinary` data (one `Vec<u8>` per row) into the
//! native columnar wire format used by `ClickHouse` data blocks.
//!
//! # Supported types for INSERT
//!
//! All scalar fixed-size types, String, FixedString(N), Nullable(T),
//! LowCardinality(T), Array(T), Map(K, V), Tuple(T1..Tn), and nested combinations.
//! `LowCardinality` is fully encoded with a per-block dictionary + indices.
//! JSON is declared and written as a String column and cast server-side.
//! Variant and Dynamic are not yet supported.

use vstd::prelude::*;
use vstd::string::*;

use crate::error::{Error, ErrorView};
use crate::native::columns::{fixed_size, lemma_tys, type_of, tys, ColumnType, Ty};
use crate::native::dictionary::Dictionary;
use crate::native::io::{
    le_bytes, lemma_groups_end, lemma_many_err, many, push_all, push_le, push_string, string,
    var_uint_at, var_uint_from, Read,
};
use crate::native::label::{debug_text, push_debug_text};
use crate::text::{decimal, push_decimal};

verus! {

/// Minimum server protocol revision where a block carries a per-column
/// `custom_serialization` flag byte before the values. The sole definition:
/// both the encoder and the decoder gate on it.
pub const DBMS_MIN_PROTOCOL_VERSION_WITH_CUSTOM_SERIALIZATION: u64 = 54454;

/// Flag bit 9, which `ClickHouse` requires on every client INSERT block's
/// `LowCardinality` column.
pub const HAS_ADDITIONAL_KEYS: u64 = 512;

// ---------------------------------------------------------------------------
// RowBinary cells
// ---------------------------------------------------------------------------

/// The error of a row that ends inside a value.
pub open spec fn truncated() -> ErrorView {
    ErrorView::BadResponse(
        "native INSERT: RowBinary row data is truncated; does the row struct match the table schema?"@,
    )
}

/// The error of a type that cannot be inserted.
pub open spec fn not_supported(t: Ty) -> ErrorView {
    ErrorView::BadResponse(
        "native INSERT: column type "@ + debug_text(t) + " is not supported for INSERT"@,
    )
}

fn rb_truncated() -> (e: Error)
    ensures
        e@ == truncated(),
{
    Error::BadResponse(
        "native INSERT: RowBinary row data is truncated; does the row struct match the table schema?".to_owned(),
    )
}

fn rb_not_supported(t: &ColumnType) -> (e: Error)
    ensures
        e@ == not_supported(t@),
{
    let mut text = "native INSERT: column type ".to_owned();
    push_debug_text(&mut text, t);
    text.append(" is not supported for INSERT");
    Error::BadResponse(text)
}

/// The varuint at `pos` of a row.
pub open spec fn rb_var_uint(d: Seq<u8>, pos: int) -> Read<u64> {
    match var_uint_at(d, pos) {
        Err(ErrorView::NotEnoughData) => Err(truncated()),
        other => other,
    }
}

/// Where `n` bytes at `pos` of a row end.
pub open spec fn rb_skip(d: Seq<u8>, pos: int, n: nat) -> Result<int, ErrorView> {
    if pos + n <= d.len() {
        Ok(pos + n)
    } else {
        Err(truncated())
    }
}

/// Where the `RowBinary` value of type `t` at `pos` ends.
///
/// `RowBinary` and native wire formats are identical for all scalar types.
/// Only `Nullable` differs: `RowBinary` has a per-row flag followed by the
/// value (or nothing for null), while native packs flags and values separately.
pub open spec fn rb_end(d: Seq<u8>, pos: int, t: Ty) -> Result<int, ErrorView>
    decreases t, 2nat, 0nat,
{
    match fixed_size(t) {
        Some(n) => rb_skip(d, pos, n as nat),
        None => match t {
            Ty::String => rb_end_string(d, pos),
            Ty::Json => rb_end_string(d, pos),
            Ty::NewJson => rb_end_string(d, pos),
            Ty::Nullable(x) => if pos >= d.len() {
                Err(truncated())
            } else if d[pos] == 0 {
                rb_end(d, pos + 1, *x)
            } else {
                Ok(pos + 1)
            },
            // RowBinary serialises LowCardinality transparently as the inner type.
            Ty::LowCardinality(x) => rb_end(d, pos, *x),
            Ty::Array(_) => match rb_var_uint(d, pos) {
                Ok((count, p)) => rb_run_end(d, p, t, count as nat),
                Err(e) => Err(e),
            },
            Ty::Mapping(_, _) => match rb_var_uint(d, pos) {
                Ok((count, p)) => rb_run_end(d, p, t, count as nat),
                Err(e) => Err(e),
            },
            Ty::Tuple(ts) => rb_fields_end(d, pos, ts),
            _ => Err(not_supported(t)),
        },
    }
}

/// Where the length-prefixed string at `pos` of a row ends.
pub open spec fn rb_end_string(d: Seq<u8>, pos: int) -> Result<int, ErrorView> {
    match rb_var_uint(d, pos) {
        Ok((len, p)) => rb_skip(d, p, len as nat),
        Err(e) => Err(e),
    }
}

/// Where `n` items of the array or map type `t` at `pos` end.
pub open spec fn rb_run_end(d: Seq<u8>, pos: int, t: Ty, n: nat) -> Result<int, ErrorView>
    decreases t, 1nat, n,
{
    if n == 0 {
        Ok(pos)
    } else {
        match rb_run_end(d, pos, t, (n - 1) as nat) {
            Ok(p) => match t {
                Ty::Array(x) => rb_end(d, p, *x),
                Ty::Mapping(k, v) => match rb_end(d, p, *k) {
                    Ok(q) => rb_end(d, q, *v),
                    Err(e) => Err(e),
                },
                _ => Ok(p),
            },
            Err(e) => Err(e),
        }
    }
}

/// Where the values of the fields `ts` at `pos` end.
pub open spec fn rb_fields_end(d: Seq<u8>, pos: int, ts: Seq<Ty>) -> Result<int, ErrorView>
    decreases ts, 0nat, 0nat,
{
    if ts.len() == 0 {
        Ok(pos)
    } else {
        match rb_fields_end(d, pos, ts.subrange(0, ts.len() - 1)) {
            Ok(p) => rb_end(d, p, ts[ts.len() - 1]),
            Err(e) => Err(e),
        }
    }
}

/// `r` is the outcome `s`, at or behind `pos` and within `len` bytes.
pub open spec fn ends(r: Result<usize, Error>, s: Result<int, ErrorView>, pos: int, len: nat) -> bool {
    match r {
        Ok(p) => s == Ok::<int, ErrorView>(p as int) && pos <= p <= len,
        Err(e) => s == Err::<int, ErrorView>(e@),
    }
}

proof fn lemma_run_end_err(d: Seq<u8>, pos: int, t: Ty, k: nat, n: nat)
    requires
        k <= n,
        rb_run_end(d, pos, t, k) is Err,
    ensures
        rb_run_end(d, pos, t, n) == rb_run_end(d, pos, t, k),
    decreases n,
{
    if k < n {
        lemma_run_end_err(d, pos, t, k, (n - 1) as nat);
    }
}

proof fn lemma_fields_end_err(d: Seq<u8>, pos: int, ts: Seq<Ty>, k: int)
    requires
        0 <= k <= ts.len(),
        rb_fields_end(d, pos, ts.subrange(0, k)) is Err,
    ensures
        rb_fields_end(d, pos, ts) == rb_fields_end(d, pos, ts.subrange(0, k)),
    decreases ts.len() - k,
{
    if k < ts.len() {
        assert(ts.subrange(0, k + 1).subrange(0, k) =~= ts.subrange(0, k));
        lemma_fields_end_err(d, pos, ts, k + 1);
    } else {
        assert(ts.subrange(0, k) =~= ts);
    }
}

/// Read a varuint from `data` starting at `pos`.
fn rb_read_varuint(data: &[u8], pos: usize) -> (r: Result<(u64, usize), Error>)
    requires
        pos <= data@.len(),
    ensures
        match r {
            Ok((v, p)) => rb_var_uint(data@, pos as int) == Ok::<(u64, int), ErrorView>((v, p as int)) && pos < p <= data@.len(),
            Err(e) => rb_var_uint(data@, pos as int) == Err::<(u64, int), ErrorView>(e@),
        },
{
    proof {
        lemma_groups_end(data@, pos as int, 10);
    }
    match var_uint_from(data, pos) {
        Err(Error::NotEnoughData) => Err(rb_truncated()),
        other => other,
    }
}

/// The position behind one RowBinary-encoded value of `col_type` at `pos`.
///
/// # Errors
///
/// [`Error::BadResponse`] where the row ends inside the value, or the type
/// cannot be inserted.
pub fn rb_advance(data: &[u8], pos: usize, col_type: &ColumnType) -> (r: Result<usize, Error>)
    requires
        pos <= data@.len(),
    ensures
        ends(r, rb_end(data@, pos as int, col_type@), pos as int, data@.len()),
    decreases col_type,
{
    // Fixed-size types: same byte count in RowBinary and native.
    if let Some(size) = col_type.fixed_size() {
        if size > data.len() - pos {
            return Err(rb_truncated());
        }
        return Ok(pos + size);
    }
    match col_type {
        ColumnType::String | ColumnType::Json | ColumnType::NewJson => {
            let (len, p) = rb_read_varuint(data, pos)?;
            if len > (data.len() - p) as u64 {
                return Err(rb_truncated());
            }
            Ok(p + len as usize)
        },
        ColumnType::Nullable(inner) => {
            if pos >= data.len() {
                return Err(rb_truncated());
            }
            if data[pos] == 0 {
                rb_advance(data, pos + 1, inner)
            } else {
                Ok(pos + 1)
            }
        },
        ColumnType::LowCardinality(inner) => rb_advance(data, pos, inner),
        ColumnType::Array(inner) => {
            let (count, start) = rb_read_varuint(data, pos)?;
            let mut p: usize = start;
            let mut i: u64 = 0;
            while i < count
                invariant
                    i <= count,
                    pos <= p <= data@.len(),
                    rb_run_end(data@, start as int, col_type@, i as nat) == Ok::<int, ErrorView>(
                        p as int,
                    ),
                    col_type@ == Ty::Array(Box::new(inner@)),
                    rb_end(data@, pos as int, col_type@) == rb_run_end(
                        data@,
                        start as int,
                        col_type@,
                        count as nat,
                    ),
                    decreases_to!(col_type => inner),
                decreases count - i,
            {
                match rb_advance(data, p, inner) {
                    Ok(q) => {
                        p = q;
                    },
                    Err(e) => {
                        proof {
                            lemma_run_end_err(
                                data@,
                                start as int,
                                col_type@,
                                (i + 1) as nat,
                                count as nat,
                            );
                        }
                        return Err(e);
                    },
                }
                i = i + 1;
            }
            Ok(p)
        },
        ColumnType::Tuple(fields) => {
            proof {
                lemma_tys(*fields);
            }
            let mut p: usize = pos;
            let mut i: usize = 0;
            let ghost ts = tys(fields@);
            while i < fields.len()
                invariant
                    i <= fields.len(),
                    pos <= p <= data@.len(),
                    ts == tys(fields@),
                    rb_end(data@, pos as int, col_type@) == rb_fields_end(data@, pos as int, ts),
                    rb_fields_end(data@, pos as int, ts.subrange(0, i as int)) == Ok::<
                        int,
                        ErrorView,
                    >(p as int),
                    decreases_to!(col_type => fields),
                decreases fields.len() - i,
            {
                proof {
                    assert(ts.subrange(0, i + 1).subrange(0, i as int) =~= ts.subrange(
                        0,
                        i as int,
                    ));
                }
                match rb_advance(data, p, &fields[i]) {
                    Ok(q) => {
                        p = q;
                    },
                    Err(e) => {
                        proof {
                            lemma_fields_end_err(data@, pos as int, ts, i + 1);
                        }
                        return Err(e);
                    },
                }
                i = i + 1;
            }
            assert(ts.subrange(0, i as int) =~= ts);
            Ok(p)
        },
        ColumnType::Mapping(key_type, val_type) => {
            let (count, start) = rb_read_varuint(data, pos)?;
            let mut p: usize = start;
            let mut i: u64 = 0;
            while i < count
                invariant
                    i <= count,
                    pos <= p <= data@.len(),
                    rb_run_end(data@, start as int, col_type@, i as nat) == Ok::<int, ErrorView>(
                        p as int,
                    ),
                    col_type@ == Ty::Mapping(Box::new(key_type@), Box::new(val_type@)),
                    rb_end(data@, pos as int, col_type@) == rb_run_end(
                        data@,
                        start as int,
                        col_type@,
                        count as nat,
                    ),
                    decreases_to!(col_type => key_type),
                    decreases_to!(col_type => val_type),
                decreases count - i,
            {
                let step = match rb_advance(data, p, key_type) {
                    Ok(q) => rb_advance(data, q, val_type),
                    Err(e) => Err(e),
                };
                match step {
                    Ok(q) => {
                        p = q;
                    },
                    Err(e) => {
                        proof {
                            lemma_run_end_err(
                                data@,
                                start as int,
                                col_type@,
                                (i + 1) as nat,
                                count as nat,
                            );
                        }
                        return Err(e);
                    },
                }
                i = i + 1;
            }
            Ok(p)
        },
        unsupported => Err(rb_not_supported(unsupported)),
    }
}

// ---------------------------------------------------------------------------
// Lists of cells
// ---------------------------------------------------------------------------

/// The lists, one behind the other.
pub open spec fn flat<T>(lists: Seq<Seq<T>>) -> Seq<T>
    decreases lists.len(),
{
    if lists.len() == 0 {
        seq![]
    } else {
        flat(lists.drop_last()) + lists.last()
    }
}

/// What `f` makes of every one of `cells`, or the first error it meets.
pub open spec fn each<T>(cells: Seq<Seq<u8>>, f: spec_fn(Seq<u8>) -> Result<T, ErrorView>) -> Result<
    Seq<T>,
    ErrorView,
>
    decreases cells.len(),
{
    if cells.len() == 0 {
        Ok(seq![])
    } else {
        match each(cells.drop_last(), f) {
            Ok(xs) => match f(cells.last()) {
                Ok(x) => Ok(xs.push(x)),
                Err(e) => Err(e),
            },
            Err(e) => Err(e),
        }
    }
}

pub proof fn lemma_each_err<T>(
    cells: Seq<Seq<u8>>,
    f: spec_fn(Seq<u8>) -> Result<T, ErrorView>,
    k: int,
)
    requires
        0 <= k <= cells.len(),
        each(cells.take(k), f) is Err,
    ensures
        each(cells, f) == each(cells.take(k), f),
    decreases cells.len() - k,
{
    if k < cells.len() {
        assert(cells.take(k + 1).drop_last() =~= cells.take(k));
        lemma_each_err(cells, f, k + 1);
    } else {
        assert(cells.take(k) =~= cells);
    }
}

/// As many results as cells.
pub proof fn lemma_each_len<T>(cells: Seq<Seq<u8>>, f: spec_fn(Seq<u8>) -> Result<T, ErrorView>)
    ensures
        each(cells, f) matches Ok(xs) ==> xs.len() == cells.len(),
    decreases cells.len(),
{
    if cells.len() > 0 {
        lemma_each_len(cells.drop_last(), f);
    }
}

/// The bytes of a list of slices.
pub open spec fn cells_of(v: Seq<&[u8]>) -> Seq<Seq<u8>> {
    v.map_values(|c: &[u8]| c@)
}

proof fn lemma_cells_push(v: Seq<&[u8]>, c: &[u8])
    ensures
        cells_of(v.push(c)) == cells_of(v).push(c@),
{
    assert(cells_of(v.push(c)) =~= cells_of(v).push(c@));
}

/// How an array's items are read from its cell.
pub open spec fn item_reader(d: Seq<u8>, t: Ty) -> spec_fn(int) -> Read<Seq<u8>> {
    |p: int|
        match rb_end(d, p, t) {
            Ok(q) => Ok((d.subrange(p, q), q)),
            Err(e) => Err(e),
        }
}

/// How a map's pairs are read from its cell.
pub open spec fn pair_reader(d: Seq<u8>, k: Ty, v: Ty) -> spec_fn(int) -> Read<
    (Seq<u8>, Seq<u8>),
> {
    |p: int|
        match rb_end(d, p, k) {
            Ok(q) => match rb_end(d, q, v) {
                Ok(r) => Ok(((d.subrange(p, q), d.subrange(q, r)), r)),
                Err(e) => Err(e),
            },
            Err(e) => Err(e),
        }
}

/// The items of the array in cell `d`.
pub open spec fn array_items(d: Seq<u8>, t: Ty) -> Result<Seq<Seq<u8>>, ErrorView> {
    match rb_var_uint(d, 0) {
        Ok((count, p)) => match many(item_reader(d, t), p, count as nat) {
            Ok((items, _)) => Ok(items),
            Err(e) => Err(e),
        },
        Err(e) => Err(e),
    }
}

/// The pairs of the map in cell `d`.
pub open spec fn map_pairs(d: Seq<u8>, k: Ty, v: Ty) -> Result<
    Seq<(Seq<u8>, Seq<u8>)>,
    ErrorView,
> {
    match rb_var_uint(d, 0) {
        Ok((count, p)) => match many(pair_reader(d, k, v), p, count as nat) {
            Ok((pairs, _)) => Ok(pairs),
            Err(e) => Err(e),
        },
        Err(e) => Err(e),
    }
}

/// The items of an array cell, as a function of the cell.
pub open spec fn array_of(t: Ty) -> spec_fn(Seq<u8>) -> Result<Seq<Seq<u8>>, ErrorView> {
    |d: Seq<u8>| array_items(d, t)
}

/// The pairs of a map cell, as a function of the cell.
pub open spec fn map_of(k: Ty, v: Ty) -> spec_fn(Seq<u8>) -> Result<
    Seq<(Seq<u8>, Seq<u8>)>,
    ErrorView,
> {
    |d: Seq<u8>| map_pairs(d, k, v)
}

/// The values of the fields `ts` at the front of `d`, and where they end.
pub open spec fn fields_at(d: Seq<u8>, ts: Seq<Ty>) -> Read<Seq<Seq<u8>>>
    decreases ts.len(),
{
    if ts.len() == 0 {
        Ok((seq![], 0))
    } else {
        match fields_at(d, ts.drop_last()) {
            Ok((fields, p)) => match rb_end(d, p, ts.last()) {
                Ok(q) => Ok((fields.push(d.subrange(p, q)), q)),
                Err(e) => Err(e),
            },
            Err(e) => Err(e),
        }
    }
}

/// The fields of a tuple cell, as a function of the cell.
pub open spec fn tuple_of(ts: Seq<Ty>) -> spec_fn(Seq<u8>) -> Result<Seq<Seq<u8>>, ErrorView> {
    |d: Seq<u8>|
        match fields_at(d, ts) {
            Ok((fields, _)) => Ok(fields),
            Err(e) => Err(e),
        }
}

/// The error of a row with bytes behind its last column.
pub open spec fn trailing(left: nat, columns: nat) -> ErrorView {
    ErrorView::BadResponse(
        "native INSERT: row has "@ + decimal(left) + " trailing RowBinary bytes after the "@
            + decimal(columns) + " declared column(s)"@,
    )
}

/// The cells of a whole row, as a function of the row.
pub open spec fn row_of(ts: Seq<Ty>) -> spec_fn(Seq<u8>) -> Result<Seq<Seq<u8>>, ErrorView> {
    |d: Seq<u8>|
        match fields_at(d, ts) {
            Ok((fields, p)) => if p == d.len() {
                Ok(fields)
            } else {
                Err(trailing((d.len() - p) as nat, ts.len()))
            },
            Err(e) => Err(e),
        }
}

/// The `i`th cell of every row.
pub open spec fn column<T>(rows: Seq<Seq<T>>, i: int) -> Seq<T> {
    rows.map_values(|r: Seq<T>| r[i])
}

/// The cumulative item counts of the lists, eight bytes each.
pub open spec fn offset_bytes<T>(lists: Seq<Seq<T>>) -> Seq<u8>
    decreases lists.len(),
{
    if lists.len() == 0 {
        seq![]
    } else {
        offset_bytes(lists.drop_last()) + le_bytes(flat(lists).len(), 8)
    }
}

// ---------------------------------------------------------------------------
// Column data
// ---------------------------------------------------------------------------

/// `n` zero bytes.
pub open spec fn zeros(n: nat) -> Seq<u8> {
    Seq::new(n, |i: int| 0u8)
}

/// The default (zero) encoding for `t`, which fills the value slot of a NULL
/// row: the native protocol requires value bytes even when the null flag is
/// set.
pub open spec fn default_cell(t: Ty) -> Seq<u8>
    decreases t,
{
    match fixed_size(t) {
        Some(n) => zeros(n as nat),
        None => match t {
            Ty::LowCardinality(x) => default_cell(*x),
            // An empty string, also for other variable-length types.
            _ => seq![0u8],
        },
    }
}

/// Write the default (zero) native encoding for `col_type`.
fn rb_write_default(out: &mut Vec<u8>, col_type: &ColumnType)
    ensures
        final(out)@ == old(out)@ + default_cell(col_type@),
    decreases col_type,
{
    if let Some(size) = col_type.fixed_size() {
        let mut i: usize = 0;
        while i < size
            invariant
                i <= size,
                out@ =~= old(out)@ + zeros(i as nat),
            decreases size - i,
        {
            out.push(0);
            i = i + 1;
        }
        return ;
    }
    match col_type {
        ColumnType::LowCardinality(inner) => {
            rb_write_default(out, inner);
        },
        _ => {
            out.push(0);
            assert(out@ =~= old(out)@ + seq![0u8]);
        },
    }
}

/// Whether the cells of `t` are written as they are.
pub open spec fn is_flat(t: Ty) -> bool {
    fixed_size(t) is Some || t is String || t is Json || t is NewJson
}

/// The serialisation prefixes for the whole tree of `t`, in the order the
/// server expects them.
///
/// Every nested prefix precedes ALL of the column's data. `LowCardinality`
/// alone has one here: the fixed version word. The dictionary belongs to the
/// data phase, so its inner type adds nothing.
pub open spec fn prefixes(t: Ty) -> Seq<u8>
    decreases t,
{
    match t {
        Ty::LowCardinality(_) => le_bytes(1, 8),
        Ty::Nullable(x) => prefixes(*x),
        Ty::Array(x) => prefixes(*x),
        Ty::SimpleAggregateFunction(x) => prefixes(*x),
        Ty::Tuple(ts) => field_prefixes(ts),
        Ty::Mapping(k, v) => prefixes(*k) + prefixes(*v),
        _ => seq![],
    }
}

/// The serialisation prefixes of `ts`, one type behind the other.
pub open spec fn field_prefixes(ts: Seq<Ty>) -> Seq<u8>
    decreases ts,
{
    if ts.len() == 0 {
        seq![]
    } else {
        field_prefixes(ts.subrange(0, ts.len() - 1)) + prefixes(ts[ts.len() - 1])
    }
}

/// The dictionary key of a `LowCardinality` cell; a Nullable inner arrives
/// wrapped: `[0x01]` is NULL, `[0x00, T..]` is Some(T), and the wrapper is
/// stripped for the dictionary.
pub open spec fn lc_key(cell: Seq<u8>, nullable: bool) -> Option<Seq<u8>> {
    if !nullable {
        Some(cell)
    } else if cell.len() == 0 || cell[0] == 1 {
        None
    } else {
        Some(cell.skip(1))
    }
}

/// The first place of `key` in `dict`.
pub open spec fn position(dict: Seq<Seq<u8>>, key: Seq<u8>) -> Option<nat>
    decreases dict.len(),
{
    if dict.len() == 0 {
        None
    } else {
        match position(dict.drop_last(), key) {
            Some(i) => Some(i),
            None => if dict.last() == key {
                Some((dict.len() - 1) as nat)
            } else {
                None
            },
        }
    }
}

/// The error of a dictionary that outgrows its indices.
pub open spec fn dictionary_overflow() -> ErrorView {
    ErrorView::BadResponse("native INSERT: LowCardinality dictionary exceeds u32 indices"@)
}

/// The dictionary that starts with `head` and takes in `keys` in order, each
/// once behind the head, and the place of every key in it. NULL stands at
/// place 0, where no key is looked for that is the same as the head.
pub open spec fn lc_scan(keys: Seq<Option<Seq<u8>>>, head: Seq<Seq<u8>>) -> Result<
    (Seq<Seq<u8>>, Seq<nat>),
    ErrorView,
>
    decreases keys.len(),
{
    if keys.len() == 0 {
        Ok((head, seq![]))
    } else {
        match lc_scan(keys.drop_last(), head) {
            Ok((d, indices)) => match keys.last() {
                None => Ok((d, indices.push(0))),
                Some(key) => if d.len() > u32::MAX {
                    Err(dictionary_overflow())
                } else {
                    match position(d.skip(head.len() as int), key) {
                        Some(i) => Ok((d, indices.push(head.len() + i))),
                        None => Ok((d.push(key), indices.push(d.len()))),
                    }
                },
            },
            Err(e) => Err(e),
        }
    }
}

/// Narrowest index width that addresses a dictionary of `n` keys; a u32 index
/// caps the width at 4 bytes.
pub open spec fn index_width(n: nat) -> nat {
    if n <= 0x100 {
        1
    } else if n <= 0x1_0000 {
        2
    } else {
        4
    }
}

/// The wire code of an index width.
pub open spec fn index_code(n: nat) -> nat {
    if n <= 0x100 {
        0
    } else if n <= 0x1_0000 {
        1
    } else {
        2
    }
}

/// The indices, `width` bytes each.
pub open spec fn index_bytes(indices: Seq<nat>, width: nat) -> Seq<u8>
    decreases indices.len(),
{
    if indices.len() == 0 {
        seq![]
    } else {
        index_bytes(indices.drop_last(), width) + le_bytes(indices.last(), width)
    }
}

/// The dictionary type of a `LowCardinality` column: T, never Nullable(T).
pub open spec fn dict_type(inner: Ty) -> Ty {
    match inner {
        Ty::Nullable(x) => *x,
        _ => inner,
    }
}

/// The dictionary before the first row: ClickHouse stores a nullable column
/// with index 0 always pointing to the default value, which stands for NULL.
pub open spec fn first_dict(inner: Ty) -> Seq<Seq<u8>> {
    if inner is Nullable {
        seq![default_cell(dict_type(inner))]
    } else {
        seq![]
    }
}

/// The keys of the cells of a `LowCardinality` column.
pub open spec fn lc_keys(cells: Seq<Seq<u8>>, nullable: bool) -> Seq<Option<Seq<u8>>> {
    cells.map_values(|c: Seq<u8>| lc_key(c, nullable))
}

/// The null flags of the cells of a `Nullable` column.
pub open spec fn null_flags(cells: Seq<Seq<u8>>) -> Seq<u8> {
    cells.map_values(|c: Seq<u8>| c[0])
}

/// The values of the cells of a `Nullable` column; NULL rows take the default.
pub open spec fn null_values(cells: Seq<Seq<u8>>, inner: Ty) -> Seq<Seq<u8>> {
    cells.map_values(
        |c: Seq<u8>|
            if c[0] == 0 {
                c.skip(1)
            } else {
                default_cell(inner)
            },
    )
}

/// Whether a cell is empty.
pub open spec fn some_empty(cells: Seq<Seq<u8>>) -> bool {
    exists|i: int| 0 <= i < cells.len() && (#[trigger] cells[i]).len() == 0
}

/// `bytes` behind `head`, or the error.
pub open spec fn behind(head: Seq<u8>, bytes: Result<Seq<u8>, ErrorView>) -> Result<
    Seq<u8>,
    ErrorView,
> {
    match bytes {
        Ok(b) => Ok(head + b),
        Err(e) => Err(e),
    }
}

/// The native columnar data of a column of type `t` whose `RowBinary` cells
/// are `cells`.
pub open spec fn col_bytes(cells: Seq<Seq<u8>>, t: Ty) -> Result<Seq<u8>, ErrorView>
    decreases t,
{
    if is_flat(t) {
        Ok(flat(cells))
    } else {
        match t {
            // u8[n] null flags, then inner_type[n] values.
            Ty::Nullable(x) => if some_empty(cells) {
                Err(truncated())
            } else {
                behind(null_flags(cells), col_bytes(null_values(cells, *x), *x))
            },
            // Flags, the dictionary as a sub-column, then the indices.
            Ty::LowCardinality(x) => match lc_scan(lc_keys(cells, *x is Nullable), first_dict(*x)) {
                Ok((dict, indices)) => {
                    let keys = match *x {
                        Ty::Nullable(y) => col_bytes(dict, *y),
                        _ => col_bytes(dict, *x),
                    };
                    match keys {
                        Ok(b) => Ok(
                            le_bytes(HAS_ADDITIONAL_KEYS as nat + index_code(dict.len()), 8)
                                + le_bytes(dict.len(), 8) + b + le_bytes(indices.len(), 8)
                                + index_bytes(indices, index_width(dict.len())),
                        ),
                        Err(e) => Err(e),
                    }
                },
                Err(e) => Err(e),
            },
            // u64[n] cumulative offsets, then all elements as a sub-column.
            Ty::Array(x) => match each(cells, array_of(*x)) {
                Ok(lists) => behind(offset_bytes(lists), col_bytes(flat(lists), *x)),
                Err(e) => Err(e),
            },
            // u64[n] cumulative offsets, then key sub-column, then value sub-column.
            Ty::Mapping(k, v) => match each(cells, map_of(*k, *v)) {
                Ok(lists) => match col_bytes(firsts(flat(lists)), *k) {
                    Ok(keys) => behind(
                        offset_bytes(lists) + keys,
                        col_bytes(seconds(flat(lists)), *v),
                    ),
                    Err(e) => Err(e),
                },
                Err(e) => Err(e),
            },
            // Each field is a separate sub-column in definition order.
            Ty::Tuple(ts) => match each(cells, tuple_of(ts)) {
                Ok(rows) => fields_bytes(rows, ts),
                Err(e) => Err(e),
            },
            _ => Err(not_supported(t)),
        }
    }
}

/// The native columnar data of the fields `ts` of `rows`, one field behind the
/// other.
pub open spec fn fields_bytes(rows: Seq<Seq<Seq<u8>>>, ts: Seq<Ty>) -> Result<Seq<u8>, ErrorView>
    decreases ts,
{
    if ts.len() == 0 {
        Ok(seq![])
    } else {
        match fields_bytes(rows, ts.subrange(0, ts.len() - 1)) {
            Ok(b) => behind(b, col_bytes(column(rows, ts.len() - 1), ts[ts.len() - 1])),
            Err(e) => Err(e),
        }
    }
}

/// The first halves of pairs.
pub open spec fn firsts(pairs: Seq<(Seq<u8>, Seq<u8>)>) -> Seq<Seq<u8>> {
    pairs.map_values(|p: (Seq<u8>, Seq<u8>)| p.0)
}

/// The second halves of pairs.
pub open spec fn seconds(pairs: Seq<(Seq<u8>, Seq<u8>)>) -> Seq<Seq<u8>> {
    pairs.map_values(|p: (Seq<u8>, Seq<u8>)| p.1)
}

/// `r` appended what `s` says to `before`, giving `after`.
pub open spec fn wrote(
    r: Result<(), Error>,
    s: Result<Seq<u8>, ErrorView>,
    before: Seq<u8>,
    after: Seq<u8>,
) -> bool {
    match r {
        Ok(()) => match s {
            Ok(b) => after == before + b,
            Err(_) => false,
        },
        Err(e) => s == Err::<Seq<u8>, ErrorView>(e@),
    }
}

/// Take the items of the array in cell `v` onto `items`.
fn cell_items<'a>(v: &'a [u8], inner: &ColumnType, items: &mut Vec<&'a [u8]>) -> (r: Result<
    (),
    Error,
>)
    ensures
        match r {
            Ok(()) => match array_items(v@, inner@) {
                Ok(xs) => cells_of(final(items)@) == cells_of(old(items)@) + xs,
                Err(_) => false,
            },
            Err(e) => array_items(v@, inner@) == Err::<Seq<Seq<u8>>, ErrorView>(e@),
        },
{
    let (count, start) = rb_read_varuint(v, 0)?;
    let mut p: usize = start;
    let mut i: u64 = 0;
    let ghost read = item_reader(v@, inner@);
    let ghost mut xs: Seq<Seq<u8>> = seq![];
    assert(cells_of(items@) =~= cells_of(old(items)@) + xs);
    while i < count
        invariant
            i <= count,
            p <= v@.len(),
            read == item_reader(v@, inner@),
            many(read, start as int, i as nat) == Ok::<(Seq<Seq<u8>>, int), ErrorView>(
                (xs, p as int),
            ),
            cells_of(items@) == cells_of(old(items)@) + xs,
            rb_var_uint(v@, 0) == Ok::<(u64, int), ErrorView>((count, start as int)),
        decreases count - i,
    {
        match rb_advance(v, p, inner) {
            Ok(q) => {
                let item = vstd::slice::slice_subrange(v, p, q);
                proof {
                    lemma_cells_push(items@, item);
                    assert(cells_of(items@).push(item@) =~= cells_of(old(items)@) + xs.push(item@));
                    xs = xs.push(item@);
                }
                items.push(item);
                p = q;
            },
            Err(e) => {
                proof {
                    lemma_many_err(read, start as int, (i + 1) as nat, count as nat);
                }
                return Err(e);
            },
        }
        i = i + 1;
    }
    Ok(())
}

/// Take the pairs of the map in cell `v` onto `keys` and `vals`.
fn cell_pairs<'a>(
    v: &'a [u8],
    key_type: &ColumnType,
    val_type: &ColumnType,
    keys: &mut Vec<&'a [u8]>,
    vals: &mut Vec<&'a [u8]>,
) -> (r: Result<(), Error>)
    ensures
        match r {
            Ok(()) => match map_pairs(v@, key_type@, val_type@) {
                Ok(xs) => {
                    &&& cells_of(final(keys)@) == cells_of(old(keys)@) + firsts(xs)
                    &&& cells_of(final(vals)@) == cells_of(old(vals)@) + seconds(xs)
                },
                Err(_) => false,
            },
            Err(e) => map_pairs(v@, key_type@, val_type@) == Err::<
                Seq<(Seq<u8>, Seq<u8>)>,
                ErrorView,
            >(e@),
        },
{
    let (count, start) = rb_read_varuint(v, 0)?;
    let mut p: usize = start;
    let mut i: u64 = 0;
    let ghost read = pair_reader(v@, key_type@, val_type@);
    let ghost mut xs: Seq<(Seq<u8>, Seq<u8>)> = seq![];
    assert(cells_of(keys@) =~= cells_of(old(keys)@) + firsts(xs));
    assert(cells_of(vals@) =~= cells_of(old(vals)@) + seconds(xs));
    while i < count
        invariant
            i <= count,
            p <= v@.len(),
            read == pair_reader(v@, key_type@, val_type@),
            many(read, start as int, i as nat) == Ok::<(Seq<(Seq<u8>, Seq<u8>)>, int), ErrorView>(
                (xs, p as int),
            ),
            cells_of(keys@) == cells_of(old(keys)@) + firsts(xs),
            cells_of(vals@) == cells_of(old(vals)@) + seconds(xs),
            rb_var_uint(v@, 0) == Ok::<(u64, int), ErrorView>((count, start as int)),
        decreases count - i,
    {
        let step = match rb_advance(v, p, key_type) {
            Ok(q) => match rb_advance(v, q, val_type) {
                Ok(end) => Ok((q, end)),
                Err(e) => Err(e),
            },
            Err(e) => Err(e),
        };
        match step {
            Ok((q, end)) => {
                let key = vstd::slice::slice_subrange(v, p, q);
                let val = vstd::slice::slice_subrange(v, q, end);
                proof {
                    lemma_cells_push(keys@, key);
                    lemma_cells_push(vals@, val);
                    let next = xs.push((key@, val@));
                    assert(firsts(next) =~= firsts(xs).push(key@));
                    assert(seconds(next) =~= seconds(xs).push(val@));
                    assert(cells_of(keys@).push(key@) =~= cells_of(old(keys)@) + firsts(next));
                    assert(cells_of(vals@).push(val@) =~= cells_of(old(vals)@) + seconds(next));
                    xs = next;
                }
                keys.push(key);
                vals.push(val);
                p = end;
            },
            Err(e) => {
                proof {
                    lemma_many_err(read, start as int, (i + 1) as nat, count as nat);
                }
                return Err(e);
            },
        }
        i = i + 1;
    }
    Ok(())
}

/// The offsets of the arrays in `values`, and all their items.
fn split_arrays<'a>(values: &Vec<&'a [u8]>, inner: &ColumnType) -> (r: Result<
    (Vec<u8>, Vec<&'a [u8]>),
    Error,
>)
    ensures
        match r {
            Ok((offsets, items)) => match each(cells_of(values@), array_of(inner@)) {
                Ok(lists) => offsets@ == offset_bytes(lists) && cells_of(items@) == flat(lists),
                Err(_) => false,
            },
            Err(e) => each(cells_of(values@), array_of(inner@)) == Err::<
                Seq<Seq<Seq<u8>>>,
                ErrorView,
            >(e@),
        },
{
    let mut offsets: Vec<u8> = Vec::new();
    let mut items: Vec<&'a [u8]> = Vec::new();
    let mut i: usize = 0;
    let ghost cells = cells_of(values@);
    let ghost f = array_of(inner@);
    let ghost mut lists: Seq<Seq<Seq<u8>>> = seq![];
    while i < values.len()
        invariant
            i <= values.len(),
            cells == cells_of(values@),
            f == array_of(inner@),
            each(cells.take(i as int), f) == Ok::<Seq<Seq<Seq<u8>>>, ErrorView>(lists),
            offsets@ == offset_bytes(lists),
            cells_of(items@) =~= flat(lists),
        decreases values.len() - i,
    {
        proof {
            assert(cells.take(i + 1).drop_last() =~= cells.take(i as int));
            assert(cells.take(i + 1).last() == values@[i as int]@);
        }
        match cell_items(values[i], inner, &mut items) {
            Ok(()) => {
                proof {
                    let xs = array_items(values@[i as int]@, inner@)->Ok_0;
                    assert(lists.push(xs).drop_last() =~= lists);
                    lists = lists.push(xs);
                }
                push_le(&mut offsets, items.len() as u128, 8);
            },
            Err(e) => {
                proof {
                    lemma_each_err(cells, f, i + 1);
                }
                return Err(e);
            },
        }
        i = i + 1;
    }
    assert(cells.take(i as int) =~= cells);
    Ok((offsets, items))
}

/// The offsets of the maps in `values`, all their keys and all their values.
fn split_maps<'a>(values: &Vec<&'a [u8]>, key_type: &ColumnType, val_type: &ColumnType) -> (r:
    Result<(Vec<u8>, Vec<&'a [u8]>, Vec<&'a [u8]>), Error>)
    ensures
        match r {
            Ok((offsets, keys, vals)) => match each(
                cells_of(values@),
                map_of(key_type@, val_type@),
            ) {
                Ok(lists) => {
                    &&& offsets@ == offset_bytes(lists)
                    &&& cells_of(keys@) == firsts(flat(lists))
                    &&& cells_of(vals@) == seconds(flat(lists))
                },
                Err(_) => false,
            },
            Err(e) => each(cells_of(values@), map_of(key_type@, val_type@)) == Err::<
                Seq<Seq<(Seq<u8>, Seq<u8>)>>,
                ErrorView,
            >(e@),
        },
{
    let mut offsets: Vec<u8> = Vec::new();
    let mut keys: Vec<&'a [u8]> = Vec::new();
    let mut vals: Vec<&'a [u8]> = Vec::new();
    let mut i: usize = 0;
    let ghost cells = cells_of(values@);
    let ghost f = map_of(key_type@, val_type@);
    let ghost mut lists: Seq<Seq<(Seq<u8>, Seq<u8>)>> = seq![];
    assert(cells_of(keys@) =~= firsts(flat(lists)));
    assert(cells_of(vals@) =~= seconds(flat(lists)));
    while i < values.len()
        invariant
            i <= values.len(),
            cells == cells_of(values@),
            f == map_of(key_type@, val_type@),
            each(cells.take(i as int), f) == Ok::<Seq<Seq<(Seq<u8>, Seq<u8>)>>, ErrorView>(lists),
            offsets@ == offset_bytes(lists),
            cells_of(keys@) == firsts(flat(lists)),
            cells_of(vals@) == seconds(flat(lists)),
        decreases values.len() - i,
    {
        proof {
            assert(cells.take(i + 1).drop_last() =~= cells.take(i as int));
            assert(cells.take(i + 1).last() == values@[i as int]@);
        }
        match cell_pairs(values[i], key_type, val_type, &mut keys, &mut vals) {
            Ok(()) => {
                proof {
                    let xs = map_pairs(values@[i as int]@, key_type@, val_type@)->Ok_0;
                    let next = lists.push(xs);
                    assert(next.drop_last() =~= lists);
                    assert(firsts(flat(next)) =~= firsts(flat(lists)) + firsts(xs));
                    assert(seconds(flat(next)) =~= seconds(flat(lists)) + seconds(xs));
                    lists = next;
                    assert(cells_of(keys@).len() == flat(lists).len());
                }
                push_le(&mut offsets, keys.len() as u128, 8);
            },
            Err(e) => {
                proof {
                    lemma_each_err(cells, f, i + 1);
                }
                return Err(e);
            },
        }
        i = i + 1;
    }
    assert(cells.take(i as int) =~= cells);
    Ok((offsets, keys, vals))
}

/// The cells of the fields `types` at the front of `v`, and where they end.
fn row_fields<'a>(v: &'a [u8], types: &Vec<ColumnType>) -> (r: Result<
    (Vec<&'a [u8]>, usize),
    Error,
>)
    ensures
        match r {
            Ok((fields, p)) => fields_at(v@, tys(types@)) == Ok::<
                (Seq<Seq<u8>>, int),
                ErrorView,
            >((cells_of(fields@), p as int)) && p <= v@.len() && fields@.len() == types@.len(),
            Err(e) => fields_at(v@, tys(types@)) == Err::<(Seq<Seq<u8>>, int), ErrorView>(e@),
        },
{
    let mut fields: Vec<&'a [u8]> = Vec::new();
    let mut p: usize = 0;
    let mut i: usize = 0;
    let ghost ts = tys(types@);
    assert(cells_of(fields@) =~= seq![]);
    while i < types.len()
        invariant
            i <= types.len(),
            ts == tys(types@),
            p <= v@.len(),
            fields@.len() == i,
            fields_at(v@, ts.take(i as int)) == Ok::<(Seq<Seq<u8>>, int), ErrorView>(
                (cells_of(fields@), p as int),
            ),
        decreases types.len() - i,
    {
        proof {
            assert(ts.take(i + 1).drop_last() =~= ts.take(i as int));
            assert(ts.take(i + 1).last() == types@[i as int]@);
        }
        match rb_advance(v, p, &types[i]) {
            Ok(q) => {
                let cell = vstd::slice::slice_subrange(v, p, q);
                proof {
                    lemma_cells_push(fields@, cell);
                }
                fields.push(cell);
                p = q;
            },
            Err(e) => {
                proof {
                    lemma_fields_at_err(v@, ts, i + 1);
                }
                return Err(e);
            },
        }
        i = i + 1;
    }
    assert(ts.take(i as int) =~= ts);
    Ok((fields, p))
}

proof fn lemma_fields_at_err(d: Seq<u8>, ts: Seq<Ty>, k: int)
    requires
        0 <= k <= ts.len(),
        fields_at(d, ts.take(k)) is Err,
    ensures
        fields_at(d, ts) == fields_at(d, ts.take(k)),
    decreases ts.len() - k,
{
    if k < ts.len() {
        assert(ts.take(k + 1).drop_last() =~= ts.take(k));
        lemma_fields_at_err(d, ts, k + 1);
    } else {
        assert(ts.take(k) =~= ts);
    }
}

/// The bytes of a table of slices.
pub open spec fn rows_of(rows: Seq<Vec<&[u8]>>) -> Seq<Seq<Seq<u8>>> {
    rows.map_values(|r: Vec<&[u8]>| cells_of(r@))
}

/// The fields of the tuples in `values`, row by row.
fn split_tuples<'a>(values: &Vec<&'a [u8]>, types: &Vec<ColumnType>) -> (r: Result<
    Vec<Vec<&'a [u8]>>,
    Error,
>)
    ensures
        match r {
            Ok(rows) => {
                &&& each(cells_of(values@), tuple_of(tys(types@))) == Ok::<
                    Seq<Seq<Seq<u8>>>,
                    ErrorView,
                >(rows_of(rows@))
                &&& forall|i: int|
                    0 <= i < rows@.len() ==> (#[trigger] rows@[i])@.len() == types@.len()
            },
            Err(e) => each(cells_of(values@), tuple_of(tys(types@))) == Err::<
                Seq<Seq<Seq<u8>>>,
                ErrorView,
            >(e@),
        },
{
    let mut rows: Vec<Vec<&'a [u8]>> = Vec::new();
    let mut i: usize = 0;
    let ghost cells = cells_of(values@);
    let ghost f = tuple_of(tys(types@));
    assert(rows_of(rows@) =~= seq![]);
    while i < values.len()
        invariant
            i <= values.len(),
            cells == cells_of(values@),
            f == tuple_of(tys(types@)),
            each(cells.take(i as int), f) == Ok::<Seq<Seq<Seq<u8>>>, ErrorView>(rows_of(rows@)),
            forall|i: int| 0 <= i < rows@.len() ==> (#[trigger] rows@[i])@.len() == types@.len(),
        decreases values.len() - i,
    {
        proof {
            assert(cells.take(i + 1).drop_last() =~= cells.take(i as int));
            assert(cells.take(i + 1).last() == values@[i as int]@);
        }
        match row_fields(values[i], types) {
            Ok((fields, _)) => {
                proof {
                    assert(rows_of(rows@.push(fields)) =~= rows_of(rows@).push(
                        cells_of(fields@),
                    ));
                }
                rows.push(fields);
            },
            Err(e) => {
                proof {
                    lemma_each_err(cells, f, i + 1);
                }
                return Err(e);
            },
        }
        i = i + 1;
    }
    assert(cells.take(i as int) =~= cells);
    Ok(rows)
}

/// The cells of one column of `rows`.
fn column_cells<'a>(rows: &Vec<Vec<&'a [u8]>>, at: usize) -> (out: Vec<&'a [u8]>)
    requires
        forall|i: int| 0 <= i < rows@.len() ==> at < (#[trigger] rows@[i])@.len(),
    ensures
        cells_of(out@) == column(rows_of(rows@), at as int),
{
    let mut out: Vec<&'a [u8]> = Vec::new();
    let mut i: usize = 0;
    while i < rows.len()
        invariant
            i <= rows.len(),
            out@.len() == i,
            forall|i: int| 0 <= i < rows@.len() ==> at < (#[trigger] rows@[i])@.len(),
            forall|k: int| 0 <= k < i ==> #[trigger] out@[k] == rows@[k]@[at as int],
        decreases rows.len() - i,
    {
        out.push(rows[i][at]);
        i = i + 1;
    }
    assert(cells_of(out@) =~= column(rows_of(rows@), at as int));
    out
}

/// The indices as mathematical numbers.
pub open spec fn places(indices: Seq<u32>) -> Seq<nat> {
    indices.map_values(|i: u32| i as nat)
}

proof fn lemma_lc_scan_err(keys: Seq<Option<Seq<u8>>>, dict: Seq<Seq<u8>>, k: int)
    requires
        0 <= k <= keys.len(),
        lc_scan(keys.take(k), dict) is Err,
    ensures
        lc_scan(keys, dict) == lc_scan(keys.take(k), dict),
    decreases keys.len() - k,
{
    if k < keys.len() {
        assert(keys.take(k + 1).drop_last() =~= keys.take(k));
        lemma_lc_scan_err(keys, dict, k + 1);
    } else {
        assert(keys.take(k) =~= keys);
    }
}

proof fn lemma_position_bound(dict: Seq<Seq<u8>>, key: Seq<u8>)
    ensures
        position(dict, key) matches Some(i) ==> i < dict.len() && dict[i as int] == key,
    decreases dict.len(),
{
    if dict.len() > 0 {
        lemma_position_bound(dict.drop_last(), key);
    }
}

/// The dictionary of a `LowCardinality` column and the place of every row in
/// it. `default_val` stands for NULL where the column is nullable.
fn lc_build<'a>(values: &Vec<&'a [u8]>, nullable: bool, default_val: &'a [u8]) -> (r: Result<
    (Vec<&'a [u8]>, Vec<u32>),
    Error,
>)
    ensures
        ({
            let head = if nullable {
                seq![default_val@]
            } else {
                seq![]
            };
            let s = lc_scan(lc_keys(cells_of(values@), nullable), head);
            match r {
                Ok((dict, indices)) => s == Ok::<(Seq<Seq<u8>>, Seq<nat>), ErrorView>(
                    (cells_of(dict@), places(indices@)),
                ),
                Err(e) => s == Err::<(Seq<Seq<u8>>, Seq<nat>), ErrorView>(e@),
            }
        }),
{
    let mut found: Dictionary<'a> = Dictionary::new();
    let mut indices: Vec<u32> = Vec::new();
    // Index 0 is the default T value, standing for NULL; the rows that are
    // there have their places behind it.
    let mut dict: Vec<&'a [u8]> = Vec::new();
    if nullable {
        dict.push(default_val);
    }
    let first: usize = dict.len();
    let ghost head: Seq<Seq<u8>> = if nullable {
        seq![default_val@]
    } else {
        seq![]
    };
    let ghost keys = lc_keys(cells_of(values@), nullable);
    assert(cells_of(dict@) =~= head);
    assert(head + found@ =~= head);
    assert(places(indices@) =~= seq![]);
    let mut i: usize = 0;
    while i < values.len()
        invariant
            i <= values.len(),
            found.wf(),
            head == if nullable {
                seq![default_val@]
            } else {
                seq![]
            },
            first == head.len(),
            keys == lc_keys(cells_of(values@), nullable),
            lc_scan(keys.take(i as int), head) == Ok::<(Seq<Seq<u8>>, Seq<nat>), ErrorView>(
                (head + found@, places(indices@)),
            ),
        decreases values.len() - i,
    {
        let v = values[i];
        proof {
            assert(keys.take(i + 1).drop_last() =~= keys.take(i as int));
            assert(keys.take(i + 1).last() == lc_key(v@, nullable));
            assert((head + found@).skip(head.len() as int) =~= found@);
        }
        // A Nullable inner arrives wrapped: [0x01] is NULL, [0x00, T..]
        // is Some(T), and the wrapper is stripped for the dictionary.
        let key: Option<&'a [u8]> = if !nullable {
            Some(v)
        } else if v.len() == 0 || v[0] == 1 {
            None
        } else {
            proof {
                assert(v@.subrange(1, v@.len() as int) =~= v@.skip(1));
            }
            Some(vstd::slice::slice_subrange(v, 1, v.len()))
        };
        let idx: u32 = match key {
            None => 0,
            Some(bytes) => {
                if found.len() as u64 > 0xffff_ffff - first as u64 {
                    proof {
                        lemma_lc_scan_err(keys, head, i + 1);
                    }
                    return Err(
                        Error::BadResponse(
                            "native INSERT: LowCardinality dictionary exceeds u32 indices".to_owned(),
                        ),
                    );
                }
                proof {
                    lemma_position_bound(found@, bytes@);
                    assert((head + found@).push(bytes@) =~= head + found@.push(bytes@));
                }
                (found.intern(bytes) + first) as u32
            },
        };
        proof {
            assert(places(indices@.push(idx)) =~= places(indices@).push(idx as nat));
        }
        indices.push(idx);
        i = i + 1;
    }
    assert(keys.take(i as int) =~= keys);
    let all = found.keys();
    let mut k: usize = 0;
    while k < all.len()
        invariant
            k <= all.len(),
            cells_of(all@) == found@,
            cells_of(dict@) =~= head + found@.take(k as int),
        decreases all.len() - k,
    {
        proof {
            lemma_cells_push(dict@, all@[k as int]);
            assert(found@[k as int] == all@[k as int]@);
            assert(found@.take(k + 1) =~= found@.take(k as int).push(all@[k as int]@));
        }
        dict.push(all[k]);
        k = k + 1;
    }
    assert(found@.take(k as int) =~= found@);
    Ok((dict, indices))
}

/// Append the indices, `width` bytes each.
fn push_indices(out: &mut Vec<u8>, indices: &Vec<u32>, width: usize)
    ensures
        final(out)@ == old(out)@ + index_bytes(places(indices@), width as nat),
{
    let mut i: usize = 0;
    let ghost all = places(indices@);
    assert(out@ =~= old(out)@ + index_bytes(all.take(0), width as nat));
    while i < indices.len()
        invariant
            i <= indices.len(),
            all == places(indices@),
            out@ == old(out)@ + index_bytes(all.take(i as int), width as nat),
        decreases indices.len() - i,
    {
        proof {
            assert(all.take(i + 1).drop_last() =~= all.take(i as int));
        }
        push_le(out, indices[i] as u128, width);
        i = i + 1;
        assert(out@ =~= old(out)@ + index_bytes(all.take(i as int), width as nat));
    }
    assert(all.take(i as int) =~= all);
}

/// Append the cells as they are.
fn push_cells(out: &mut Vec<u8>, values: &Vec<&[u8]>)
    ensures
        final(out)@ == old(out)@ + flat(cells_of(values@)),
{
    let mut i: usize = 0;
    let ghost all = cells_of(values@);
    assert(out@ =~= old(out)@ + flat(all.take(0)));
    while i < values.len()
        invariant
            i <= values.len(),
            all == cells_of(values@),
            out@ == old(out)@ + flat(all.take(i as int)),
        decreases values.len() - i,
    {
        proof {
            assert(all.take(i + 1).drop_last() =~= all.take(i as int));
        }
        push_all(out, values[i]);
        i = i + 1;
        assert(out@ =~= old(out)@ + flat(all.take(i as int)));
    }
    assert(all.take(i as int) =~= all);
}

/// Append the null flags of `values`, and hand back the values behind them;
/// every null row shares `default_val`.
fn split_nullable<'a>(values: &Vec<&'a [u8]>, default_val: &'a [u8], out: &mut Vec<u8>) -> (r:
    Result<Vec<&'a [u8]>, Error>)
    ensures
        match r {
            Ok(inner) => {
                &&& !some_empty(cells_of(values@))
                &&& final(out)@ == old(out)@ + null_flags(cells_of(values@))
                &&& cells_of(inner@) == cells_of(values@).map_values(
                    |c: Seq<u8>|
                        if c[0] == 0 {
                            c.skip(1)
                        } else {
                            default_val@
                        },
                )
            },
            Err(e) => some_empty(cells_of(values@)) && e@ == truncated(),
        },
{
    let mut inner: Vec<&'a [u8]> = Vec::new();
    let mut i: usize = 0;
    let ghost cells = cells_of(values@);
    assert(out@ =~= old(out)@ + null_flags(cells).take(0));
    while i < values.len()
        invariant
            i <= values.len(),
            cells == cells_of(values@),
            inner@.len() == i,
            forall|k: int| 0 <= k < i ==> (#[trigger] cells[k]).len() > 0,
            out@ == old(out)@ + null_flags(cells).take(i as int),
            forall|k: int|
                0 <= k < i ==> (#[trigger] inner@[k])@ == if cells[k][0] == 0 {
                    cells[k].skip(1)
                } else {
                    default_val@
                },
        decreases values.len() - i,
    {
        let v = values[i];
        assert(cells[i as int] == v@);
        if v.len() == 0 {
            return Err(rb_truncated());
        }
        let flag: u8 = v[0];
        out.push(flag);
        // RowBinary: 0 = has value, 1 = null
        if flag == 0 {
            proof {
                assert(v@.subrange(1, v@.len() as int) =~= v@.skip(1));
            }
            inner.push(vstd::slice::slice_subrange(v, 1, v.len()));
        } else {
            inner.push(default_val);
        }
        i = i + 1;
        assert(out@ =~= old(out)@ + null_flags(cells).take(i as int));
    }
    assert(null_flags(cells).take(i as int) =~= null_flags(cells));
    assert(cells_of(inner@) =~= cells.map_values(
        |c: Seq<u8>|
            if c[0] == 0 {
                c.skip(1)
            } else {
                default_val@
            },
    ));
    Ok(inner)
}

proof fn lemma_fields_bytes_err(rows: Seq<Seq<Seq<u8>>>, ts: Seq<Ty>, k: int)
    requires
        0 <= k <= ts.len(),
        fields_bytes(rows, ts.subrange(0, k)) is Err,
    ensures
        fields_bytes(rows, ts) == fields_bytes(rows, ts.subrange(0, k)),
    decreases ts.len() - k,
{
    if k < ts.len() {
        assert(ts.subrange(0, k + 1).subrange(0, k) =~= ts.subrange(0, k));
        lemma_fields_bytes_err(rows, ts, k + 1);
    } else {
        assert(ts.subrange(0, k) =~= ts);
    }
}

/// Recursively write native columnar data for `values`, one `RowBinary` cell
/// per row.
fn write_col_values(values: &Vec<&[u8]>, col_type: &ColumnType, out: &mut Vec<u8>) -> (r: Result<
    (),
    Error,
>)
    ensures
        wrote(r, col_bytes(cells_of(values@), col_type@), old(out)@, final(out)@),
    decreases col_type, 2nat,
{
    // Fixed-size scalars, String, and FixedString: RowBinary bytes == native bytes.
    if col_type.fixed_size().is_some() || matches!(
        col_type,
        ColumnType::String | ColumnType::Json | ColumnType::NewJson
    ) {
        push_cells(out, values);
        return Ok(());
    }
    match col_type {
        ColumnType::Nullable(inner) => write_nullable(values, inner, out),
        ColumnType::LowCardinality(inner) => write_low_cardinality(values, inner, out),
        ColumnType::Array(inner) => write_array(values, inner, out),
        ColumnType::Mapping(_, _) => write_map(values, col_type, out),
        ColumnType::Tuple(fields) => {
            proof {
                lemma_tys(*fields);
            }
            let rows = split_tuples(values, fields)?;
            write_fields(&rows, fields, out)
        },
        unsupported => Err(rb_not_supported(unsupported)),
    }
}

/// Write a `LowCardinality` column: flags, the dictionary, then the indices.
///
/// For LowCardinality(Nullable(T)), the DICTIONARY type is T (not Nullable(T)).
/// ClickHouse stores nullable LC as a T-typed dict with index 0 always
/// pointing to the default T value (representing NULL).
fn write_low_cardinality(values: &Vec<&[u8]>, inner: &ColumnType, out: &mut Vec<u8>) -> (r: Result<
    (),
    Error,
>)
    ensures
        wrote(
            r,
            col_bytes(cells_of(values@), Ty::LowCardinality(Box::new(inner@))),
            old(out)@,
            final(out)@,
        ),
    decreases inner, 3nat,
{
    let (dict_type, nullable): (&ColumnType, bool) = match inner {
        ColumnType::Nullable(t) => (t, true),
        other => (other, false),
    };
    let mut default_val: Vec<u8> = Vec::new();
    rb_write_default(&mut default_val, dict_type);
    assert(default_val@ =~= default_cell(dict_type@));
    let (dict, indices) = lc_build(values, nullable, default_val.as_slice())?;
    // Narrowest index width that addresses the whole dictionary; a u32
    // index vector caps the width at 4 bytes, so code 3 is unreachable.
    let (code, width): (u64, usize) = if dict.len() <= 0x100 {
        (0, 1)
    } else if dict.len() <= 0x1_0000 {
        (1, 2)
    } else {
        (2, 4)
    };
    // The version word is not written here: it is this column's
    // serialisation prefix, emitted by `write_col_prefixes` ahead of
    // all of the column's data.
    push_le(out, (HAS_ADDITIONAL_KEYS + code) as u128, 8);
    push_le(out, dict.len() as u128, 8);
    // Dictionary type is T, never Nullable(T).
    write_col_values(&dict, dict_type, out)?;
    push_le(out, indices.len() as u128, 8);
    push_indices(out, &indices, width);
    proof {
        let b = col_bytes(cells_of(dict@), dict_type@)->Ok_0;
        assert(places(indices@).len() == indices@.len());
        assert(out@ =~= old(out)@ + (le_bytes(
            HAS_ADDITIONAL_KEYS as nat + index_code(dict@.len()),
            8,
        ) + le_bytes(dict@.len(), 8) + b + le_bytes(indices@.len(), 8) + index_bytes(
            places(indices@),
            index_width(dict@.len()),
        )));
    }
    Ok(())
}

/// Write the sub-columns of a tuple, in definition order.
fn write_fields(rows: &Vec<Vec<&[u8]>>, fields: &Vec<ColumnType>, out: &mut Vec<u8>) -> (r: Result<
    (),
    Error,
>)
    requires
        forall|i: int| 0 <= i < rows@.len() ==> (#[trigger] rows@[i])@.len() == fields@.len(),
    ensures
        wrote(r, fields_bytes(rows_of(rows@), tys(fields@)), old(out)@, final(out)@),
    decreases fields, 3nat,
{
    let mut i: usize = 0;
    let ghost ts = tys(fields@);
    let ghost table = rows_of(rows@);
    let ghost mut b: Seq<u8> = seq![];
    assert(out@ =~= old(out)@ + b);
    while i < fields.len()
        invariant
            i <= fields.len(),
            ts == tys(fields@),
            table == rows_of(rows@),
            forall|i: int| 0 <= i < rows@.len() ==> (#[trigger] rows@[i])@.len() == fields@.len(),
            fields_bytes(table, ts.subrange(0, i as int)) == Ok::<Seq<u8>, ErrorView>(b),
            out@ == old(out)@ + b,
        decreases fields.len() - i,
    {
        proof {
            assert(ts.subrange(0, i + 1).subrange(0, i as int) =~= ts.subrange(0, i as int));
        }
        let cells = column_cells(rows, i);
        match write_col_values(&cells, &fields[i], out) {
            Ok(()) => {
                proof {
                    let x = col_bytes(column(table, i as int), ts[i as int])->Ok_0;
                    assert(out@ =~= old(out)@ + (b + x));
                    b = b + x;
                }
            },
            Err(e) => {
                proof {
                    lemma_fields_bytes_err(table, ts, i + 1);
                }
                return Err(e);
            },
        }
        i = i + 1;
    }
    assert(ts.subrange(0, i as int) =~= ts);
    Ok(())
}

/// Write a `Nullable` column: null flags, then a full-width value column.
fn write_nullable(values: &Vec<&[u8]>, inner: &ColumnType, out: &mut Vec<u8>) -> (r: Result<
    (),
    Error,
>)
    ensures
        wrote(
            r,
            col_bytes(cells_of(values@), Ty::Nullable(Box::new(inner@))),
            old(out)@,
            final(out)@,
        ),
    decreases inner, 3nat,
{
    let mut default_val: Vec<u8> = Vec::new();
    rb_write_default(&mut default_val, inner);
    assert(default_val@ =~= default_cell(inner@));
    let refs = split_nullable(values, default_val.as_slice(), out)?;
    proof {
        assert(cells_of(refs@) =~= null_values(cells_of(values@), inner@));
    }
    write_col_values(&refs, inner, out)?;
    proof {
        let b = col_bytes(cells_of(refs@), inner@)->Ok_0;
        assert(out@ =~= old(out)@ + (null_flags(cells_of(values@)) + b));
    }
    Ok(())
}

/// Write an `Array` column: cumulative offsets, then all elements as a
/// sub-column.
fn write_array(values: &Vec<&[u8]>, inner: &ColumnType, out: &mut Vec<u8>) -> (r: Result<
    (),
    Error,
>)
    ensures
        wrote(
            r,
            col_bytes(cells_of(values@), Ty::Array(Box::new(inner@))),
            old(out)@,
            final(out)@,
        ),
    decreases inner, 3nat,
{
    let (offsets, items) = split_arrays(values, inner)?;
    push_all(out, offsets.as_slice());
    write_col_values(&items, inner, out)?;
    proof {
        let b = col_bytes(cells_of(items@), inner@)->Ok_0;
        assert(out@ =~= old(out)@ + (offsets@ + b));
    }
    Ok(())
}

/// Write a `Map` column: cumulative offsets, then the key sub-column, then the
/// value sub-column.
fn write_map(values: &Vec<&[u8]>, col_type: &ColumnType, out: &mut Vec<u8>) -> (r: Result<
    (),
    Error,
>)
    requires
        col_type is Mapping,
    ensures
        wrote(r, col_bytes(cells_of(values@), col_type@), old(out)@, final(out)@),
    decreases col_type, 1nat,
{
    match col_type {
        ColumnType::Mapping(key_type, val_type) => {
            let (offsets, keys, vals) = split_maps(values, key_type, val_type)?;
            push_all(out, offsets.as_slice());
            write_col_values(&keys, key_type, out)?;
            write_col_values(&vals, val_type, out)?;
            proof {
                let k = col_bytes(cells_of(keys@), key_type@)->Ok_0;
                let b = col_bytes(cells_of(vals@), val_type@)->Ok_0;
                assert(out@ =~= old(out)@ + (offsets@ + k + b));
            }
            Ok(())
        },
        _ => Ok(()),
    }
}

/// Write the serialisation prefixes for `col_type`'s whole tree, in the order
/// the server expects them.
///
/// `NativeWriter` serialises the prefixes of the entire column before its
/// data, so every nested prefix precedes ALL of the column's data. Writing a
/// prefix inline where its child sits agrees with that only when nothing
/// precedes the child: true inside a `Tuple`, false behind an `Array`'s
/// offsets, where the server rejects the block with "Invalid version for
/// `SerializationLowCardinality` key column" (code 117).
fn write_col_prefixes(col_type: &ColumnType, out: &mut Vec<u8>)
    ensures
        final(out)@ == old(out)@ + prefixes(col_type@),
    decreases col_type,
{
    match col_type {
        // The dictionary belongs to the data phase, so this does not recurse
        // into the inner type.
        ColumnType::LowCardinality(_) => push_le(out, 1, 8),
        ColumnType::Nullable(inner)
        | ColumnType::Array(inner)
        | ColumnType::SimpleAggregateFunction(inner) => write_col_prefixes(inner, out),
        ColumnType::Tuple(fields) => {
            proof {
                lemma_tys(*fields);
            }
            let mut i: usize = 0;
            let ghost ts = tys(fields@);
            assert(out@ =~= old(out)@ + field_prefixes(ts.subrange(0, 0)));
            while i < fields.len()
                invariant
                    i <= fields.len(),
                    ts == tys(fields@),
                    out@ == old(out)@ + field_prefixes(ts.subrange(0, i as int)),
                    decreases_to!(col_type => fields),
                decreases fields.len() - i,
            {
                proof {
                    assert(ts.subrange(0, i + 1).subrange(0, i as int) =~= ts.subrange(
                        0,
                        i as int,
                    ));
                }
                write_col_prefixes(&fields[i], out);
                i = i + 1;
                assert(out@ =~= old(out)@ + field_prefixes(ts.subrange(0, i as int)));
            }
            assert(ts.subrange(0, i as int) =~= ts);
        },
        ColumnType::Mapping(key, value) => {
            write_col_prefixes(key, out);
            write_col_prefixes(value, out);
            assert(out@ =~= old(out)@ + (prefixes(key@) + prefixes(value@)));
        },
        _ => {
            assert(out@ =~= old(out)@ + prefixes(col_type@));
        },
    }
}

// ---------------------------------------------------------------------------
// Blocks
// ---------------------------------------------------------------------------

/// Column schema entry for a native INSERT block.
#[derive(Debug)]
pub struct ColumnSchema {
    /// Column name as declared to the server.
    pub name: String,
    /// Type name string sent on the wire.
    pub type_text: String,
    /// Parsed column type used for encoding decisions.
    pub col_type: ColumnType,
}

/// The mathematical value of a [`ColumnSchema`].
pub struct SchemaView {
    pub name: Seq<char>,
    pub type_text: Seq<char>,
    pub ty: Ty,
}

impl View for ColumnSchema {
    type V = SchemaView;

    open spec fn view(&self) -> SchemaView {
        SchemaView { name: self.name@, type_text: self.type_text@, ty: self.col_type@ }
    }
}

impl Clone for ColumnSchema {
    fn clone(&self) -> (out: ColumnSchema)
        ensures
            out@ == self@,
    {
        ColumnSchema {
            name: self.name.clone(),
            type_text: self.type_text.clone(),
            col_type: self.col_type.clone(),
        }
    }
}

/// The mathematical values of a list of columns.
pub open spec fn schema_views(columns: Seq<ColumnSchema>) -> Seq<SchemaView> {
    columns.map_values(|c: ColumnSchema| c@)
}

/// Whether columns of the type can be inserted: nothing in it is a type that
/// has no place in a block of rows.
pub open spec fn encodable(t: Ty) -> bool
    decreases t,
{
    fixed_size(t) is Some || match t {
        Ty::String => true,
        Ty::Json => true,
        Ty::NewJson => true,
        Ty::Nullable(x) => encodable(*x),
        Ty::LowCardinality(x) => encodable(*x),
        Ty::Array(x) => encodable(*x),
        Ty::Mapping(k, v) => encodable(*k) && encodable(*v),
        Ty::Tuple(ts) => all_encodable(ts),
        _ => false,
    }
}

/// Whether columns of all of `ts` can be inserted.
pub open spec fn all_encodable(ts: Seq<Ty>) -> bool
    decreases ts,
{
    ts.len() == 0 || (all_encodable(ts.subrange(0, ts.len() - 1)) && encodable(ts[ts.len() - 1]))
}

proof fn lemma_not_encodable(ts: Seq<Ty>, k: int)
    requires
        0 <= k <= ts.len(),
        !all_encodable(ts.subrange(0, k)),
    ensures
        !all_encodable(ts),
    decreases ts.len() - k,
{
    if k < ts.len() {
        assert(ts.subrange(0, k + 1).subrange(0, k) =~= ts.subrange(0, k));
        lemma_not_encodable(ts, k + 1);
    } else {
        assert(ts.subrange(0, k) =~= ts);
    }
}

fn can_encode(t: &ColumnType) -> (yes: bool)
    ensures
        yes == encodable(t@),
    decreases t,
{
    if t.fixed_size().is_some() {
        return true;
    }
    match t {
        ColumnType::String | ColumnType::Json | ColumnType::NewJson => true,
        ColumnType::Nullable(inner)
        | ColumnType::LowCardinality(inner)
        | ColumnType::Array(inner) => can_encode(inner),
        ColumnType::Mapping(key, value) => can_encode(key) && can_encode(value),
        ColumnType::Tuple(fields) => {
            proof {
                lemma_tys(*fields);
            }
            let ghost ts = tys(fields@);
            let mut i: usize = 0;
            while i < fields.len()
                invariant
                    i <= fields.len(),
                    ts == tys(fields@),
                    t@ == Ty::Tuple(ts),
                    all_encodable(ts.subrange(0, i as int)),
                    decreases_to!(t => fields),
                decreases fields.len() - i,
            {
                proof {
                    assert(ts.subrange(0, i + 1).subrange(0, i as int) =~= ts.subrange(
                        0,
                        i as int,
                    ));
                }
                if !can_encode(&fields[i]) {
                    proof {
                        lemma_not_encodable(ts, i + 1);
                    }
                    return false;
                }
                i = i + 1;
            }
            assert(ts.subrange(0, i as int) =~= ts);
            true
        },
        _ => false,
    }
}

/// The error of a header whose type cannot be inserted.
pub open spec fn unsupported_header(name: Seq<char>, type_text: Seq<char>) -> ErrorView {
    ErrorView::BadResponse(
        "native INSERT: unsupported column type '"@ + type_text + "' for column '"@ + name + "'"@,
    )
}

/// The columns that the headers declare, up to the first that cannot be
/// inserted.
pub open spec fn header_columns(headers: Seq<(Seq<char>, Seq<char>)>) -> Result<
    Seq<SchemaView>,
    ErrorView,
>
    decreases headers.len(),
{
    if headers.len() == 0 {
        Ok(seq![])
    } else {
        match header_columns(headers.drop_last()) {
            Ok(columns) => {
                let (name, type_text) = headers.last();
                match type_of(type_text) {
                    Some(ty) if encodable(ty) => Ok(
                        columns.push(SchemaView { name, type_text, ty }),
                    ),
                    _ => Err(unsupported_header(name, type_text)),
                }
            },
            Err(e) => Err(e),
        }
    }
}

proof fn lemma_header_columns_err(headers: Seq<(Seq<char>, Seq<char>)>, k: int)
    requires
        0 <= k <= headers.len(),
        header_columns(headers.take(k)) is Err,
    ensures
        header_columns(headers) == header_columns(headers.take(k)),
    decreases headers.len() - k,
{
    if k < headers.len() {
        assert(headers.take(k + 1).drop_last() =~= headers.take(k));
        lemma_header_columns_err(headers, k + 1);
    } else {
        assert(headers.take(k) =~= headers);
    }
}

/// The texts of a list of pairs.
pub open spec fn pair_texts(pairs: Seq<(String, String)>) -> Seq<(Seq<char>, Seq<char>)> {
    pairs.map_values(|p: (String, String)| (p.0@, p.1@))
}

impl ColumnSchema {
    /// Build a `ColumnSchema` list from server-provided `(name, type_text)` pairs.
    ///
    /// # Errors
    ///
    /// [`Error::BadResponse`] for a type name this codec cannot encode.
    pub fn from_headers(headers: &[(String, String)]) -> (r: Result<Vec<Self>, Error>)
        ensures
            match r {
                Ok(columns) => header_columns(pair_texts(headers@)) == Ok::<
                    Seq<SchemaView>,
                    ErrorView,
                >(schema_views(columns@)),
                Err(e) => header_columns(pair_texts(headers@)) == Err::<
                    Seq<SchemaView>,
                    ErrorView,
                >(e@),
            },
    {
        let mut columns: Vec<ColumnSchema> = Vec::new();
        let mut i: usize = 0;
        let ghost all = pair_texts(headers@);
        assert(schema_views(columns@) =~= seq![]);
        while i < headers.len()
            invariant
                i <= headers.len(),
                all == pair_texts(headers@),
                header_columns(all.take(i as int)) == Ok::<Seq<SchemaView>, ErrorView>(
                    schema_views(columns@),
                ),
            decreases headers.len() - i,
        {
            let name = &headers[i].0;
            let type_text = &headers[i].1;
            proof {
                assert(all.take(i + 1).drop_last() =~= all.take(i as int));
                assert(all.take(i + 1).last() == (name@, type_text@));
            }
            match ColumnType::parse(type_text.as_str()) {
                Some(col_type) if can_encode(&col_type) => {
                    let column = ColumnSchema {
                        name: name.clone(),
                        type_text: type_text.clone(),
                        col_type,
                    };
                    proof {
                        assert(schema_views(columns@.push(column)) =~= schema_views(
                            columns@,
                        ).push(column@));
                    }
                    columns.push(column);
                },
                _ => {
                    let mut text = "native INSERT: unsupported column type '".to_owned();
                    text.append(type_text.as_str());
                    text.append("' for column '");
                    text.append(name.as_str());
                    text.append("'");
                    proof {
                        lemma_header_columns_err(all, i + 1);
                    }
                    return Err(Error::BadResponse(text));
                },
            }
            i = i + 1;
        }
        assert(all.take(i as int) =~= all);
        Ok(columns)
    }
}

/// The type name a column is declared with. A JSON column is declared as
/// String and cast by the server, which converts block columns to the table's
/// types by position.
pub open spec fn declared_type(column: SchemaView) -> Seq<char> {
    if column.ty is NewJson || column.ty is Json {
        "String"@
    } else {
        column.type_text
    }
}

/// What stands before a column's data: name, type, and on newer servers the
/// custom-serialization flag (0 = normal).
pub open spec fn column_header(column: SchemaView, custom: bool) -> Seq<u8> {
    string(vstd::utf8::encode_utf8(column.name)) + string(
        vstd::utf8::encode_utf8(declared_type(column)),
    ) + if custom {
        seq![0u8]
    } else {
        seq![]
    }
}

/// The columns of a block whose rows hold `cells`.
pub open spec fn block_columns(
    cells: Seq<Seq<Seq<u8>>>,
    columns: Seq<SchemaView>,
    custom: bool,
) -> Result<Seq<u8>, ErrorView>
    decreases columns.len(),
{
    if columns.len() == 0 {
        Ok(seq![])
    } else {
        match block_columns(cells, columns.drop_last(), custom) {
            Ok(b) => behind(
                b + column_header(columns.last(), custom) + prefixes(columns.last().ty),
                col_bytes(column(cells, columns.len() - 1), columns.last().ty),
            ),
            Err(e) => Err(e),
        }
    }
}

/// The types of the columns.
pub open spec fn column_tys(columns: Seq<SchemaView>) -> Seq<Ty> {
    columns.map_values(|c: SchemaView| c.ty)
}

/// Whether a server of this revision expects the custom-serialization flag.
pub open spec fn has_custom(revision: u64) -> bool {
    revision >= DBMS_MIN_PROTOCOL_VERSION_WITH_CUSTOM_SERIALIZATION
}

/// The native columnar bytes of `rows`.
pub open spec fn encoded(rows: Seq<Seq<u8>>, columns: Seq<SchemaView>, revision: u64) -> Result<
    Seq<u8>,
    ErrorView,
> {
    if columns.len() == 0 || rows.len() == 0 {
        Ok(seq![])
    } else {
        match each(rows, row_of(column_tys(columns))) {
            Ok(cells) => block_columns(cells, columns, has_custom(revision)),
            Err(e) => Err(e),
        }
    }
}

/// The bytes of the rows.
pub open spec fn row_bytes(rows: Seq<Vec<u8>>) -> Seq<Seq<u8>> {
    rows.map_values(|r: Vec<u8>| r@)
}

fn column_types(columns: &[ColumnSchema]) -> (out: Vec<ColumnType>)
    ensures
        tys(out@) == column_tys(schema_views(columns@)),
        out@.len() == columns@.len(),
{
    let mut out: Vec<ColumnType> = Vec::new();
    let mut i: usize = 0;
    while i < columns.len()
        invariant
            i <= columns.len(),
            out@.len() == i,
            forall|k: int| 0 <= k < i ==> (#[trigger] out@[k])@ == columns@[k].col_type@,
        decreases columns.len() - i,
    {
        out.push(columns[i].col_type.clone());
        i = i + 1;
    }
    assert(tys(out@) =~= column_tys(schema_views(columns@)));
    out
}

/// The cells of every row, each of which must end with its last column.
fn split_rows<'a>(rows: &'a [Vec<u8>], types: &Vec<ColumnType>) -> (r: Result<
    Vec<Vec<&'a [u8]>>,
    Error,
>)
    ensures
        match r {
            Ok(table) => {
                &&& each(row_bytes(rows@), row_of(tys(types@))) == Ok::<
                    Seq<Seq<Seq<u8>>>,
                    ErrorView,
                >(rows_of(table@))
                &&& forall|i: int|
                    0 <= i < table@.len() ==> (#[trigger] table@[i])@.len() == types@.len()
            },
            Err(e) => each(row_bytes(rows@), row_of(tys(types@))) == Err::<
                Seq<Seq<Seq<u8>>>,
                ErrorView,
            >(e@),
        },
{
    let mut table: Vec<Vec<&'a [u8]>> = Vec::new();
    let mut i: usize = 0;
    let ghost all = row_bytes(rows@);
    let ghost f = row_of(tys(types@));
    assert(rows_of(table@) =~= seq![]);
    while i < rows.len()
        invariant
            i <= rows.len(),
            all == row_bytes(rows@),
            f == row_of(tys(types@)),
            each(all.take(i as int), f) == Ok::<Seq<Seq<Seq<u8>>>, ErrorView>(rows_of(table@)),
            forall|i: int| 0 <= i < table@.len() ==> (#[trigger] table@[i])@.len() == types@.len(),
        decreases rows.len() - i,
    {
        let row = rows[i].as_slice();
        proof {
            assert(all.take(i + 1).drop_last() =~= all.take(i as int));
            assert(all.take(i + 1).last() == row@);
            assert(tys(types@).len() == types@.len());
        }
        match row_fields(row, types) {
            Ok((fields, p)) => {
                // A caller narrowing the column set below what the row's RowBinary
                // carries would otherwise ship only the declared prefix of each row.
                if p != row.len() {
                    let mut text = "native INSERT: row has ".to_owned();
                    push_decimal(&mut text, (row.len() - p) as u128);
                    text.append(" trailing RowBinary bytes after the ");
                    push_decimal(&mut text, types.len() as u128);
                    text.append(" declared column(s)");
                    proof {
                        lemma_each_err(all, f, i + 1);
                    }
                    return Err(Error::BadResponse(text));
                }
                proof {
                    assert(rows_of(table@.push(fields)) =~= rows_of(table@).push(
                        cells_of(fields@),
                    ));
                }
                table.push(fields);
            },
            Err(e) => {
                proof {
                    lemma_each_err(all, f, i + 1);
                }
                return Err(e);
            },
        }
        i = i + 1;
    }
    assert(all.take(i as int) =~= all);
    Ok(table)
}

proof fn lemma_block_columns_err(
    cells: Seq<Seq<Seq<u8>>>,
    columns: Seq<SchemaView>,
    custom: bool,
    k: int,
)
    requires
        0 <= k <= columns.len(),
        block_columns(cells, columns.take(k), custom) is Err,
    ensures
        block_columns(cells, columns, custom) == block_columns(cells, columns.take(k), custom),
    decreases columns.len() - k,
{
    if k < columns.len() {
        assert(columns.take(k + 1).drop_last() =~= columns.take(k));
        lemma_block_columns_err(cells, columns, custom, k + 1);
    } else {
        assert(columns.take(k) =~= columns);
    }
}

fn push_column_header(out: &mut Vec<u8>, column: &ColumnSchema, custom: bool)
    ensures
        final(out)@ == old(out)@ + column_header(column@, custom),
{
    push_string(out, column.name.as_str().as_bytes());
    let type_text = match column.col_type {
        ColumnType::NewJson | ColumnType::Json => "String",
        _ => column.type_text.as_str(),
    };
    push_string(out, type_text.as_bytes());
    if custom {
        out.push(0);
    }
    assert(out@ =~= old(out)@ + column_header(column@, custom));
}

/// Encode buffered `RowBinary` rows into native columnar block column bytes.
///
/// Returns a flat byte buffer containing, for each column in order:
/// - `string(column_name)`
/// - `string(column_type_name)`
/// - optional custom-serialization flag byte (0x00) for newer servers
/// - column data (native columnar encoding, recursively for Array/Map/Tuple)
///
/// This output is written directly after the block header
/// (`num_columns` + `num_rows`) in a Data packet.
///
/// Every cell is a borrowed slice of the caller's row buffers.
///
/// # Errors
///
/// Returns `Error::BadResponse` if any row's `RowBinary` data is truncated or
/// contains an unsupported type for INSERT.
pub fn encode_columns(rows: &[Vec<u8>], columns: &[ColumnSchema], revision: u64) -> (r: Result<
    Vec<u8>,
    Error,
>)
    ensures
        match r {
            Ok(out) => encoded(row_bytes(rows@), schema_views(columns@), revision) == Ok::<
                Seq<u8>,
                ErrorView,
            >(out@),
            Err(e) => encoded(row_bytes(rows@), schema_views(columns@), revision) == Err::<
                Seq<u8>,
                ErrorView,
            >(e@),
        },
{
    let custom = revision >= DBMS_MIN_PROTOCOL_VERSION_WITH_CUSTOM_SERIALIZATION;
    let mut out: Vec<u8> = Vec::new();
    if columns.len() == 0 || rows.len() == 0 {
        assert(out@ =~= seq![]);
        return Ok(out);
    }
    // Pass 1 -- record per-column byte ranges into the caller's row buffers.
    let types = column_types(columns);
    let table = split_rows(rows, &types)?;
    // Pass 2 -- emit header + native-encoded data for each column.
    let mut i: usize = 0;
    let ghost all = schema_views(columns@);
    let ghost cells = rows_of(table@);
    assert(out@ =~= seq![]);
    while i < columns.len()
        invariant
            i <= columns.len(),
            types@.len() == columns@.len(),
            all == schema_views(columns@),
            cells == rows_of(table@),
            forall|i: int| 0 <= i < table@.len() ==> (#[trigger] table@[i])@.len() == types@.len(),
            block_columns(cells, all.take(i as int), custom) == Ok::<Seq<u8>, ErrorView>(out@),
            encoded(row_bytes(rows@), all, revision) == block_columns(cells, all, custom),
        decreases columns.len() - i,
    {
        let column = &columns[i];
        proof {
            assert(all.take(i + 1).drop_last() =~= all.take(i as int));
            assert(all.take(i + 1).last() == column@);
        }
        let ghost before = out@;
        push_column_header(&mut out, column, custom);
        write_col_prefixes(&column.col_type, &mut out);
        let values = column_cells(&table, i);
        proof {
            assert(out@ =~= before + column_header(column@, custom) + prefixes(column@.ty));
        }
        match write_col_values(&values, &column.col_type, &mut out) {
            Ok(()) => {},
            Err(e) => {
                proof {
                    lemma_block_columns_err(cells, all, custom, i + 1);
                }
                return Err(e);
            },
        }
        i = i + 1;
    }
    assert(all.take(i as int) =~= all);
    Ok(out)
}

} // verus!
