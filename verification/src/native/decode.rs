//! Native columnar block decoder -- the inverse of
//! [`crate::native::encode::encode_columns`].
//!
//! Reads a Native-format data block into a [`DecodedBlock`]: one
//! [`DecodedColumn`] per declared column, holding typed value buffers that can
//! be indexed row by row without a second transpose. `Variant`, `Dynamic` and
//! `JSON` columns arrive as [`DecodedColumn::Json`], one document per row,
//! rendered by [`crate::native::reader::read_column`]. `BFloat16`, `Time`,
//! `Time64` and the geo types have no typed variant yet: their wire bytes are
//! consumed so the stream pointer stays aligned and the column is tagged
//! [`DecodedColumn::Unsupported`].

use vstd::prelude::*;
use vstd::string::*;

use crate::error::{optional_text, Error, ErrorView};
use crate::native::columns::{lemma_tys, type_of, tys, ColumnType, Ty};
use crate::native::decoded::{
    blocks16, blocks32, cols, lemma_cols, lemma_cols_push, BlockView, Col, DecodedBlock,
    DecodedColumn,
};
use crate::native::encode::{
    each, has_custom, lemma_each_err, pair_texts, row_bytes,
    DBMS_MIN_PROTOCOL_VERSION_WITH_CUSTOM_SERIALIZATION,
};
use crate::native::io::{
    bytes_at, bytes_from, claim, le_nat, le_number, lemma_many_err, lemma_pow256, many, reads,
    signed128, signed16, signed32, signed64, signed8, string_at, string_from, twos, u32_at,
    u32_from, u64_at, u64_from, u8_at, u8_from, utf8_error_text, utf8_string_at, utf8_string_from,
    utf8_text, var_uint_at, var_uint_from, with_cap, Read, Wire, WireView,
};
use crate::native::label::{debug_text, push_debug_text};
use crate::native::reader::{
    column_at, json_body_at, last_or_zero, nested_reader, passes, read_column, read_json_body,
    total_of, Cells, ColumnData, JSON_SERIALIZATION_STRING,
};
use crate::text::{decimal, push_decimal};

verus! {

/// Upper bound on composite-type nesting the decoder will descend, backstopping
/// the parse-time guard in [`ColumnType`] for a type built outside the parser.
pub const MAX_DECODE_DEPTH: usize = 32;

/// Hard cap on the `num_rows` a Data packet header may declare. The count is a
/// server-controlled varuint that sizes every per-column buffer in the block.
pub const MAX_BLOCK_ROWS: u64 = 268_435_456;

/// Hard cap on the `num_columns` a Data packet header may declare.
pub const MAX_BLOCK_COLUMNS: u64 = 65_536;

// ---------------------------------------------------------------------------
// Fixed-width numbers
// ---------------------------------------------------------------------------

/// Fixed-width little-endian scalar decoded a whole column at a time.
pub trait LeScalar: Sized + Copy {
    /// How many bytes a value takes.
    spec fn spec_width() -> nat;

    /// The value of a bit pattern.
    spec fn of_bits(n: nat) -> Self;

    /// How many bytes a value takes.
    fn width() -> (n: usize)
        ensures
            n == Self::spec_width(),
            1 <= n <= 16,
    ;

    /// The value whose bytes start at `pos`.
    fn from_le(d: &[u8], pos: usize) -> (v: Self)
        requires
            pos + Self::spec_width() <= d@.len(),
        ensures
            v == Self::of_bits(le_nat(d@.subrange(pos as int, pos + Self::spec_width()))),
    ;
}

impl LeScalar for u16 {
    open spec fn spec_width() -> nat {
        2
    }

    open spec fn of_bits(n: nat) -> u16 {
        n as u16
    }

    fn width() -> (n: usize) {
        2
    }

    fn from_le(d: &[u8], pos: usize) -> (v: u16) {
        proof {
            lemma_pow256();
        }
        le_number(d, pos, 2) as u16
    }
}

impl LeScalar for u32 {
    open spec fn spec_width() -> nat {
        4
    }

    open spec fn of_bits(n: nat) -> u32 {
        n as u32
    }

    fn width() -> (n: usize) {
        4
    }

    fn from_le(d: &[u8], pos: usize) -> (v: u32) {
        proof {
            lemma_pow256();
        }
        le_number(d, pos, 4) as u32
    }
}

impl LeScalar for u64 {
    open spec fn spec_width() -> nat {
        8
    }

    open spec fn of_bits(n: nat) -> u64 {
        n as u64
    }

    fn width() -> (n: usize) {
        8
    }

    fn from_le(d: &[u8], pos: usize) -> (v: u64) {
        proof {
            lemma_pow256();
        }
        le_number(d, pos, 8) as u64
    }
}

impl LeScalar for u128 {
    open spec fn spec_width() -> nat {
        16
    }

    open spec fn of_bits(n: nat) -> u128 {
        n as u128
    }

    fn width() -> (n: usize) {
        16
    }

    fn from_le(d: &[u8], pos: usize) -> (v: u128) {
        proof {
            lemma_pow256();
        }
        le_number(d, pos, 16)
    }
}

impl LeScalar for i16 {
    open spec fn spec_width() -> nat {
        2
    }

    open spec fn of_bits(n: nat) -> i16 {
        twos(n, 2) as i16
    }

    fn width() -> (n: usize) {
        2
    }

    fn from_le(d: &[u8], pos: usize) -> (v: i16) {
        proof {
            lemma_pow256();
        }
        signed16(le_number(d, pos, 2) as u16)
    }
}

impl LeScalar for i32 {
    open spec fn spec_width() -> nat {
        4
    }

    open spec fn of_bits(n: nat) -> i32 {
        twos(n, 4) as i32
    }

    fn width() -> (n: usize) {
        4
    }

    fn from_le(d: &[u8], pos: usize) -> (v: i32) {
        proof {
            lemma_pow256();
        }
        signed32(le_number(d, pos, 4) as u32)
    }
}

impl LeScalar for i64 {
    open spec fn spec_width() -> nat {
        8
    }

    open spec fn of_bits(n: nat) -> i64 {
        twos(n, 8) as i64
    }

    fn width() -> (n: usize) {
        8
    }

    fn from_le(d: &[u8], pos: usize) -> (v: i64) {
        proof {
            lemma_pow256();
        }
        signed64(le_number(d, pos, 8) as u64)
    }
}

impl LeScalar for i128 {
    open spec fn spec_width() -> nat {
        16
    }

    open spec fn of_bits(n: nat) -> i128 {
        twos(n, 16) as i128
    }

    fn width() -> (n: usize) {
        16
    }

    fn from_le(d: &[u8], pos: usize) -> (v: i128) {
        proof {
            lemma_pow256();
        }
        signed128(le_number(d, pos, 16))
    }
}

/// The values that stand one behind the other.
pub open spec fn le_reader<T: LeScalar>(d: Seq<u8>) -> spec_fn(int) -> Read<T> {
    |p: int|
        match bytes_at(d, p, T::spec_width()) {
            Ok((b, q)) => Ok((T::of_bits(le_nat(b)), q)),
            Err(e) => Err(e),
        }
}

/// The error of a column whose byte length no machine size holds.
pub open spec fn numeric_overflow() -> ErrorView {
    ErrorView::BadResponse("native: numeric column byte length overflows usize"@)
}

/// `n` little-endian values.
pub open spec fn le_column_at<T: LeScalar>(w: WireView, pos: int, n: nat) -> Read<Seq<T>> {
    if n * T::spec_width() > usize::MAX {
        Err(numeric_overflow())
    } else {
        match many(le_reader::<T>(w.bytes), pos, n) {
            Ok((values, p)) => match claim::<T>(n, w.budget) {
                Ok(()) => Ok((values, p)),
                Err(e) => Err(e),
            },
            Err(e) => Err(e),
        }
    }
}

/// Read `n` little-endian `T` values.
fn read_le_column<T: LeScalar>(w: &Wire, pos: usize, n: usize) -> (r: Result<
    (Vec<T>, usize),
    Error,
>)
    requires
        pos <= w@.bytes.len(),
    ensures
        match r {
            Ok((v, p)) => le_column_at::<T>(w@, pos as int, n as nat) == Ok::<
                (Seq<T>, int),
                ErrorView,
            >((v@, p as int)) && p <= w@.bytes.len(),
            Err(e) => le_column_at::<T>(w@, pos as int, n as nat) == Err::<
                (Seq<T>, int),
                ErrorView,
            >(e@),
        },
{
    let width: usize = T::width();
    proof {
        assert(n * width <= 0xffff_ffff_ffff_ffff * 16) by (nonlinear_arith)
            requires
                0 <= n <= 0xffff_ffff_ffff_ffff,
                0 <= width <= 16,
        ;
    }
    if n as u128 * width as u128 > usize::MAX as u128 {
        return Err(
            Error::BadResponse("native: numeric column byte length overflows usize".to_owned()),
        );
    }
    let mut out: Vec<T> = Vec::new();
    let mut p: usize = pos;
    let mut i: usize = 0;
    let ghost read = le_reader::<T>(w@.bytes);
    assert(out@ =~= seq![]);
    while i < n
        invariant
            i <= n,
            width == T::spec_width(),
            n * T::spec_width() <= usize::MAX,
            p <= w@.bytes.len(),
            read == le_reader::<T>(w@.bytes),
            many(read, pos as int, i as nat) == Ok::<(Seq<T>, int), ErrorView>((out@, p as int)),
        decreases n - i,
    {
        if width > w.data.len() - p {
            proof {
                lemma_many_err(read, pos as int, (i + 1) as nat, n as nat);
            }
            return Err(Error::NotEnoughData);
        }
        out.push(T::from_le(w.data, p));
        p = p + width;
        i = i + 1;
    }
    with_cap::<T>(n, w.budget)?;
    Ok((out, p))
}

// ---------------------------------------------------------------------------
// Fixed-width blocks
// ---------------------------------------------------------------------------

/// Blocks of `size` bytes.
pub open spec fn block_reader(d: Seq<u8>, size: nat) -> spec_fn(int) -> Read<Seq<u8>> {
    |p: int| bytes_at(d, p, size)
}

/// The error of a 256-bit column whose byte length no machine size holds.
pub open spec fn wide_overflow() -> ErrorView {
    ErrorView::BadResponse("native: 256-bit column byte length overflows usize"@)
}

/// `n` raw 32-byte little-endian values, which have no native Rust scalar.
pub open spec fn wide_column_at(w: WireView, pos: int, n: nat) -> Read<Cells> {
    if n * 32 > usize::MAX {
        Err(wide_overflow())
    } else {
        match many(block_reader(w.bytes, 32), pos, n) {
            Ok((values, p)) => match claim::<[u8; 32]>(n, w.budget) {
                Ok(()) => Ok((values, p)),
                Err(e) => Err(e),
            },
            Err(e) => Err(e),
        }
    }
}

/// `n` raw 16-byte values.
pub open spec fn blocks16_at(w: WireView, pos: int, n: nat) -> Read<Cells> {
    match claim::<[u8; 16]>(n, w.budget) {
        Ok(()) => many(block_reader(w.bytes, 16), pos, n),
        Err(e) => Err(e),
    }
}

/// The 32 bytes at `pos`.
fn block32(d: &[u8], pos: usize) -> (a: [u8; 32])
    requires
        pos + 32 <= d@.len(),
    ensures
        a@ == d@.subrange(pos as int, pos + 32),
{
    let size: usize = d.len();
    let mut a: [u8; 32] = [0;32];
    let mut i: usize = 0;
    while i < 32
        invariant
            i <= 32,
            pos + 32 <= d@.len(),
            d@.len() == size,
            a@.len() == 32,
            forall|k: int| 0 <= k < i ==> a@[k] == d@[pos + k],
        decreases 32 - i,
    {
        a[i] = d[pos + i];
        i = i + 1;
    }
    assert(a@ =~= d@.subrange(pos as int, pos + 32));
    a
}

/// The 16 bytes at `pos`.
fn block16(d: &[u8], pos: usize) -> (a: [u8; 16])
    requires
        pos + 16 <= d@.len(),
    ensures
        a@ == d@.subrange(pos as int, pos + 16),
{
    let size: usize = d.len();
    let mut a: [u8; 16] = [0;16];
    let mut i: usize = 0;
    while i < 16
        invariant
            i <= 16,
            pos + 16 <= d@.len(),
            d@.len() == size,
            a@.len() == 16,
            forall|k: int| 0 <= k < i ==> a@[k] == d@[pos + k],
        decreases 16 - i,
    {
        a[i] = d[pos + i];
        i = i + 1;
    }
    assert(a@ =~= d@.subrange(pos as int, pos + 16));
    a
}

/// Read `n` raw 32-byte little-endian values (the backing store for
/// `Int256`/`UInt256`/`Decimal256`).
fn read_u256_column(w: &Wire, pos: usize, n: usize) -> (r: Result<(Vec<[u8; 32]>, usize), Error>)
    requires
        pos <= w@.bytes.len(),
    ensures
        match r {
            Ok((v, p)) => wide_column_at(w@, pos as int, n as nat) == Ok::<(Cells, int), ErrorView>(
                (blocks32(v@), p as int),
            ) && p <= w@.bytes.len(),
            Err(e) => wide_column_at(w@, pos as int, n as nat) == Err::<(Cells, int), ErrorView>(
                e@,
            ),
        },
{
    if n > usize::MAX / 32 {
        return Err(
            Error::BadResponse("native: 256-bit column byte length overflows usize".to_owned()),
        );
    }
    let mut out: Vec<[u8; 32]> = Vec::new();
    let mut p: usize = pos;
    let mut i: usize = 0;
    let ghost read = block_reader(w@.bytes, 32);
    assert(blocks32(out@) =~= seq![]);
    while i < n
        invariant
            i <= n,
            n * 32 <= usize::MAX,
            p <= w@.bytes.len(),
            read == block_reader(w@.bytes, 32),
            many(read, pos as int, i as nat) == Ok::<(Cells, int), ErrorView>(
                (blocks32(out@), p as int),
            ),
        decreases n - i,
    {
        if 32 > w.data.len() - p {
            proof {
                lemma_many_err(read, pos as int, (i + 1) as nat, n as nat);
            }
            return Err(Error::NotEnoughData);
        }
        let block = block32(w.data, p);
        proof {
            assert(blocks32(out@.push(block)) =~= blocks32(out@).push(block@));
        }
        out.push(block);
        p = p + 32;
        i = i + 1;
    }
    with_cap::<[u8; 32]>(n, w.budget)?;
    Ok((out, p))
}

/// Read `n` raw 16-byte values.
fn read_blocks16(w: &Wire, pos: usize, n: usize) -> (r: Result<(Vec<[u8; 16]>, usize), Error>)
    requires
        pos <= w@.bytes.len(),
    ensures
        match r {
            Ok((v, p)) => blocks16_at(w@, pos as int, n as nat) == Ok::<(Cells, int), ErrorView>(
                (blocks16(v@), p as int),
            ) && p <= w@.bytes.len(),
            Err(e) => blocks16_at(w@, pos as int, n as nat) == Err::<(Cells, int), ErrorView>(e@),
        },
{
    let mut out: Vec<[u8; 16]> = with_cap(n, w.budget)?;
    let mut p: usize = pos;
    let mut i: usize = 0;
    let ghost read = block_reader(w@.bytes, 16);
    assert(blocks16(out@) =~= seq![]);
    while i < n
        invariant
            i <= n,
            claim::<[u8; 16]>(n as nat, w@.budget) is Ok,
            p <= w@.bytes.len(),
            read == block_reader(w@.bytes, 16),
            many(read, pos as int, i as nat) == Ok::<(Cells, int), ErrorView>(
                (blocks16(out@), p as int),
            ),
        decreases n - i,
    {
        if 16 > w.data.len() - p {
            proof {
                lemma_many_err(read, pos as int, (i + 1) as nat, n as nat);
            }
            return Err(Error::NotEnoughData);
        }
        let block = block16(w.data, p);
        proof {
            assert(blocks16(out@.push(block)) =~= blocks16(out@).push(block@));
        }
        out.push(block);
        p = p + 16;
        i = i + 1;
    }
    Ok((out, p))
}

// ---------------------------------------------------------------------------
// Strings, documents and offsets
// ---------------------------------------------------------------------------

/// Strings, without their length prefixes.
pub open spec fn text_reader(d: Seq<u8>) -> spec_fn(int) -> Read<Seq<u8>> {
    |p: int| string_at(d, p)
}

/// `n` strings.
pub open spec fn texts_at(w: WireView, pos: int, n: nat) -> Read<Cells> {
    match claim::<Vec<u8>>(n, w.budget) {
        Ok(()) => many(text_reader(w.bytes), pos, n),
        Err(e) => Err(e),
    }
}

fn read_texts(w: &Wire, pos: usize, n: usize) -> (r: Result<(ColumnData, usize), Error>)
    requires
        pos <= w@.bytes.len(),
    ensures
        match r {
            Ok((v, p)) => texts_at(w@, pos as int, n as nat) == Ok::<(Cells, int), ErrorView>(
                (row_bytes(v@), p as int),
            ) && p <= w@.bytes.len(),
            Err(e) => texts_at(w@, pos as int, n as nat) == Err::<(Cells, int), ErrorView>(e@),
        },
{
    let mut out: ColumnData = with_cap(n, w.budget)?;
    let mut p: usize = pos;
    let mut i: usize = 0;
    let ghost read = text_reader(w@.bytes);
    assert(row_bytes(out@) =~= seq![]);
    while i < n
        invariant
            i <= n,
            claim::<Vec<u8>>(n as nat, w@.budget) is Ok,
            p <= w@.bytes.len(),
            read == text_reader(w@.bytes),
            many(read, pos as int, i as nat) == Ok::<(Cells, int), ErrorView>(
                (row_bytes(out@), p as int),
            ),
        decreases n - i,
    {
        // The string reader applies the size cap.
        match string_from(w.data, p) {
            Ok((s, q)) => {
                proof {
                    assert(row_bytes(out@.push(s)) =~= row_bytes(out@).push(s@));
                }
                out.push(s);
                p = q;
            },
            Err(e) => {
                proof {
                    lemma_many_err(read, pos as int, (i + 1) as nat, n as nat);
                }
                return Err(e);
            },
        }
        i = i + 1;
    }
    Ok((out, p))
}

/// The error of a document that is longer than its cell.
pub open spec fn cell_overrun() -> ErrorView {
    ErrorView::BadResponse("native: JSON cell length runs past the cell"@)
}

/// The document in a cell, as a function of the cell.
pub open spec fn unwrap_cell() -> spec_fn(Seq<u8>) -> Result<Seq<u8>, ErrorView> {
    |c: Seq<u8>|
        match var_uint_at(c, 0) {
            Ok((len, p)) => if p + len <= c.len() {
                Ok(c.subrange(p, p + len))
            } else {
                Err(cell_overrun())
            },
            Err(e) => Err(e),
        }
}

/// Strip the `RowBinary` length prefix from cells the column reader emits as
/// length-prefixed strings, leaving the JSON document bytes.
fn unwrap_json_cells(cells: ColumnData) -> (r: Result<ColumnData, Error>)
    ensures
        match r {
            Ok(v) => each(row_bytes(cells@), unwrap_cell()) == Ok::<Cells, ErrorView>(
                row_bytes(v@),
            ),
            Err(e) => each(row_bytes(cells@), unwrap_cell()) == Err::<Cells, ErrorView>(e@),
        },
{
    let mut out: ColumnData = Vec::new();
    let mut i: usize = 0;
    let ghost all = row_bytes(cells@);
    let ghost f = unwrap_cell();
    assert(row_bytes(out@) =~= seq![]);
    while i < cells.len()
        invariant
            i <= cells.len(),
            all == row_bytes(cells@),
            f == unwrap_cell(),
            each(all.take(i as int), f) == Ok::<Cells, ErrorView>(row_bytes(out@)),
        decreases cells.len() - i,
    {
        let cell = cells[i].as_slice();
        proof {
            assert(all.take(i + 1).drop_last() =~= all.take(i as int));
            assert(all.take(i + 1).last() == cell@);
        }
        let step: Result<Vec<u8>, Error> = match var_uint_from(cell, 0) {
            Ok((len, p)) => {
                if len > (cell.len() - p) as u64 {
                    Err(
                        Error::BadResponse(
                            "native: JSON cell length runs past the cell".to_owned(),
                        ),
                    )
                } else {
                    Ok(
                        vstd::slice::slice_to_vec(
                            vstd::slice::slice_subrange(cell, p, p + len as usize),
                        ),
                    )
                }
            },
            Err(e) => Err(e),
        };
        match step {
            Ok(doc) => {
                proof {
                    assert(row_bytes(out@.push(doc)) =~= row_bytes(out@).push(doc@));
                }
                out.push(doc);
            },
            Err(e) => {
                proof {
                    lemma_each_err(all, f, i + 1);
                }
                return Err(e);
            },
        }
        i = i + 1;
    }
    assert(all.take(i as int) =~= all);
    Ok(out)
}

/// A document as it is, where it is UTF-8.
pub open spec fn utf8_doc() -> spec_fn(Seq<u8>) -> Result<Seq<u8>, ErrorView> {
    |d: Seq<u8>|
        if vstd::utf8::valid_utf8(d) {
            Ok(d)
        } else {
            Err(ErrorView::InvalidUtf8Encoding(utf8_error_text(d)))
        }
}

/// The column of the documents of `read`, all of them UTF-8.
pub open spec fn docs_of(read: Read<Cells>) -> Read<Col> {
    match read {
        Ok((docs, p)) => match each(docs, utf8_doc()) {
            Ok(d) => Ok((Col::Json(d), p)),
            Err(e) => Err(e),
        },
        Err(e) => Err(e),
    }
}

/// The column of the documents in the cells of `read`.
pub open spec fn documents_of(read: Read<Cells>) -> Read<Col> {
    match read {
        Ok((cells, p)) => match each(cells, unwrap_cell()) {
            Ok(docs) => docs_of(Ok((docs, p))),
            Err(e) => Err(e),
        },
        Err(e) => Err(e),
    }
}

/// Refuse documents that are not UTF-8.
fn check_docs(docs: ColumnData) -> (r: Result<ColumnData, Error>)
    ensures
        match r {
            Ok(v) => each(row_bytes(docs@), utf8_doc()) == Ok::<Cells, ErrorView>(row_bytes(v@)),
            Err(e) => each(row_bytes(docs@), utf8_doc()) == Err::<Cells, ErrorView>(e@),
        },
{
    let ghost all = row_bytes(docs@);
    let ghost f = utf8_doc();
    let mut i: usize = 0;
    assert(all.take(0) =~= seq![]);
    while i < docs.len()
        invariant
            i <= docs.len(),
            all == row_bytes(docs@),
            f == utf8_doc(),
            each(all.take(i as int), f) == Ok::<Cells, ErrorView>(all.take(i as int)),
        decreases docs.len() - i,
    {
        proof {
            assert(all.take(i + 1).drop_last() =~= all.take(i as int));
            assert(all.take(i + 1).last() == docs@[i as int]@);
        }
        if let Err(t) = utf8_text(vstd::slice::slice_to_vec(docs[i].as_slice())) {
            proof {
                lemma_each_err(all, f, i + 1);
            }
            return Err(Error::InvalidUtf8Encoding(t));
        }
        assert(all.take(i as int).push(docs@[i as int]@) =~= all.take(i + 1));
        i = i + 1;
    }
    assert(all.take(i as int) =~= all);
    Ok(docs)
}

/// The error of offsets that step backwards.
pub open spec fn not_rising(what: Seq<char>) -> ErrorView {
    ErrorView::BadResponse(
        "native: "@ + what + " column offsets are not monotonically increasing"@,
    )
}

/// `n` cumulative end-offsets, none below its predecessor.
pub open spec fn rising_at(d: Seq<u8>, pos: int, n: nat, what: Seq<char>) -> Read<Seq<u64>>
    decreases n,
{
    if n == 0 {
        Ok((seq![], pos))
    } else {
        match rising_at(d, pos, (n - 1) as nat, what) {
            Ok((xs, p)) => match u64_at(d, p) {
                Ok((end, q)) => if end < last_or_zero(xs) {
                    Err(not_rising(what))
                } else {
                    Ok((xs.push(end), q))
                },
                Err(e) => Err(e),
            },
            Err(e) => Err(e),
        }
    }
}

proof fn lemma_rising_err(d: Seq<u8>, pos: int, k: nat, n: nat, what: Seq<char>)
    requires
        k <= n,
        rising_at(d, pos, k, what) is Err,
    ensures
        rising_at(d, pos, n, what) == rising_at(d, pos, k, what),
    decreases n,
{
    if k < n {
        lemma_rising_err(d, pos, k, (n - 1) as nat, what);
    }
}

/// `n` cumulative end-offsets, within the budget.
pub open spec fn offsets_at(w: WireView, pos: int, n: nat, what: Seq<char>) -> Read<Seq<u64>> {
    match claim::<u64>(n, w.budget) {
        Ok(()) => rising_at(w.bytes, pos, n, what),
        Err(e) => Err(e),
    }
}

fn read_offsets(w: &Wire, pos: usize, n: usize, what: &str) -> (r: Result<
    (Vec<u64>, usize),
    Error,
>)
    requires
        pos <= w@.bytes.len(),
    ensures
        match r {
            Ok((v, p)) => offsets_at(w@, pos as int, n as nat, what@) == Ok::<
                (Seq<u64>, int),
                ErrorView,
            >((v@, p as int)) && p <= w@.bytes.len(),
            Err(e) => offsets_at(w@, pos as int, n as nat, what@) == Err::<
                (Seq<u64>, int),
                ErrorView,
            >(e@),
        },
{
    let mut out: Vec<u64> = with_cap(n, w.budget)?;
    let mut prev: u64 = 0;
    let mut p: usize = pos;
    let mut i: usize = 0;
    assert(out@ =~= seq![]);
    while i < n
        invariant
            i <= n,
            claim::<u64>(n as nat, w@.budget) is Ok,
            p <= w@.bytes.len(),
            prev == last_or_zero(out@),
            rising_at(w@.bytes, pos as int, i as nat, what@) == Ok::<(Seq<u64>, int), ErrorView>(
                (out@, p as int),
            ),
        decreases n - i,
    {
        let step: Result<(u64, usize), Error> = match u64_from(w.data, p) {
            Ok((end, q)) => {
                if end < prev {
                    let mut text = "native: ".to_owned();
                    text.append(what);
                    text.append(" column offsets are not monotonically increasing");
                    Err(Error::BadResponse(text))
                } else {
                    Ok((end, q))
                }
            },
            Err(e) => Err(e),
        };
        match step {
            Ok((end, q)) => {
                out.push(end);
                prev = end;
                p = q;
            },
            Err(e) => {
                proof {
                    lemma_rising_err(w@.bytes, pos as int, (i + 1) as nat, n as nat, what@);
                }
                return Err(e);
            },
        }
        i = i + 1;
    }
    Ok((out, p))
}

// ---------------------------------------------------------------------------
// Columns
// ---------------------------------------------------------------------------

/// The error of a type that nests too deep.
pub open spec fn decode_too_deep() -> ErrorView {
    ErrorView::BadResponse(
        "native: column type nesting exceeds "@ + decimal(MAX_DECODE_DEPTH as nat) + " levels"@,
    )
}

/// The error of a row count that this machine cannot address.
pub open spec fn decode_too_many_rows(n: nat) -> ErrorView {
    ErrorView::BadResponse("native: row count "@ + decimal(n) + " exceeds platform usize"@)
}

fn error_decode_too_deep() -> (e: Error)
    ensures
        e@ == decode_too_deep(),
{
    let mut text = "native: column type nesting exceeds ".to_owned();
    push_decimal(&mut text, MAX_DECODE_DEPTH as u128);
    text.append(" levels");
    Error::BadResponse(text)
}

/// The zero-row shape of a type, for a block that carries no column bytes.
pub open spec fn empty_col(t: Ty) -> Col
    decreases t,
{
    match t {
        Ty::UInt8 => Col::UInt8(seq![]),
        Ty::Enum8 => Col::UInt8(seq![]),
        Ty::Int8 => Col::Int8(seq![]),
        Ty::UInt16 => Col::UInt16(seq![]),
        Ty::Enum16 => Col::UInt16(seq![]),
        Ty::Int16 => Col::Int16(seq![]),
        Ty::UInt32 => Col::UInt32(seq![]),
        Ty::Int32 => Col::Int32(seq![]),
        Ty::UInt64 => Col::UInt64(seq![]),
        Ty::Int64 => Col::Int64(seq![]),
        Ty::Int128 => Col::Int128(seq![]),
        Ty::UInt128 => Col::UInt128(seq![]),
        Ty::Int256 => Col::Int256(seq![]),
        Ty::UInt256 => Col::UInt256(seq![]),
        Ty::Float32 => Col::Float32(seq![]),
        Ty::Float64 => Col::Float64(seq![]),
        Ty::Decimal32 { precision, scale } => Col::Decimal32 { precision, scale, values: seq![] },
        Ty::Decimal64 { precision, scale } => Col::Decimal64 { precision, scale, values: seq![] },
        Ty::Decimal128 { precision, scale } => Col::Decimal128 { precision, scale, values: seq![] },
        Ty::Decimal256 { precision, scale } => Col::Decimal256 { precision, scale, values: seq![] },
        Ty::String => Col::String(seq![]),
        Ty::Json => Col::Json(seq![]),
        Ty::NewJson => Col::Json(seq![]),
        Ty::Variant(_) => Col::Json(seq![]),
        Ty::Dynamic => Col::Json(seq![]),
        Ty::FixedString(width) => Col::FixedString { width, bytes: seq![] },
        Ty::Date => Col::Date(seq![]),
        Ty::Date32 => Col::Date32(seq![]),
        Ty::DateTime => Col::DateTime(seq![]),
        Ty::DateTime64 { precision, timezone } => Col::DateTime64 {
            precision,
            timezone,
            values: seq![],
        },
        Ty::Uuid => Col::Uuid(seq![]),
        Ty::IPv4 => Col::Ipv4(seq![]),
        Ty::IPv6 => Col::Ipv6(seq![]),
        Ty::Nullable(x) => Col::Nullable { mask: seq![], child: Box::new(empty_col(*x)) },
        Ty::Array(x) => Col::Array { offsets: seq![], child: Box::new(empty_col(*x)) },
        Ty::Mapping(k, v) => Col::Mapping {
            offsets: seq![],
            keys: Box::new(empty_col(*k)),
            values: Box::new(empty_col(*v)),
        },
        Ty::Tuple(ts) => Col::Tuple(empty_cols(ts)),
        // The dictionary on the wire is the inner type with `Nullable`
        // stripped; slot 0 is then the null sentinel.
        Ty::LowCardinality(x) => Col::LowCardinality {
            dict: Box::new(
                match *x {
                    Ty::Nullable(y) => empty_col(*y),
                    _ => empty_col(*x),
                },
            ),
            indices: Box::new(Col::UInt8(seq![])),
            is_nullable_inner: *x is Nullable,
        },
        Ty::SimpleAggregateFunction(x) => empty_col(*x),
        _ => Col::Unsupported(debug_text(t)),
    }
}

/// The zero-row shapes of `ts`.
pub open spec fn empty_cols(ts: Seq<Ty>) -> Seq<Col>
    decreases ts,
{
    if ts.len() == 0 {
        seq![]
    } else {
        empty_cols(ts.subrange(0, ts.len() - 1)).push(empty_col(ts[ts.len() - 1]))
    }
}

/// What `make` makes of the value that was read.
pub open spec fn mapped<A, B>(read: Read<A>, make: spec_fn(A) -> B) -> Read<B> {
    match read {
        Ok((v, p)) => Ok((make(v), p)),
        Err(e) => Err(e),
    }
}

/// The error of a global dictionary.
pub open spec fn decode_global_dictionary() -> ErrorView {
    ErrorView::BadResponse(
        "native: LowCardinality global dictionary is not supported on the client-server path (only per-block additional keys)"@,
    )
}

/// The error of a block without a dictionary.
pub open spec fn decode_no_dictionary() -> ErrorView {
    ErrorView::BadResponse(
        "native: LowCardinality block set neither the additional-keys nor the global-dictionary flag"@,
    )
}

/// The error of an index count that is not the row count.
pub open spec fn decode_index_count(indices: nat, rows: nat) -> ErrorView {
    ErrorView::BadResponse(
        "native: LowCardinality index count "@ + decimal(indices) + " != row count "@ + decimal(
            rows,
        ),
    )
}

/// The flags and the size of a `LowCardinality` dictionary.
pub open spec fn lc_head_at(w: WireView, pos: int) -> Read<(u64, u64)> {
    match u64_at(w.bytes, pos) {
        Ok((flags, p)) => if (flags / 0x100) % 2 == 1 {
            Err(decode_global_dictionary())
        } else if (flags / 0x200) % 2 == 0 {
            Err(decode_no_dictionary())
        } else {
            match u64_at(w.bytes, p) {
                Ok((size, q)) => Ok(((flags, size), q)),
                Err(e) => Err(e),
            }
        },
        Err(e) => Err(e),
    }
}

/// The index column of a `LowCardinality` column, at the width its flags
/// announce.
pub open spec fn index_column_at(w: WireView, pos: int, n: nat, flags: u64) -> Read<Col> {
    if flags % 4 == 0 {
        mapped(bytes_at(w.bytes, pos, n), |v: Seq<u8>| Col::UInt8(v))
    } else if flags % 4 == 1 {
        mapped(le_column_at::<u16>(w, pos, n), |v: Seq<u16>| Col::UInt16(v))
    } else if flags % 4 == 2 {
        mapped(le_column_at::<u32>(w, pos, n), |v: Seq<u32>| Col::UInt32(v))
    } else {
        mapped(le_column_at::<u64>(w, pos, n), |v: Seq<u64>| Col::UInt64(v))
    }
}

/// The rest of a `LowCardinality` column behind its dictionary.
pub open spec fn lc_tail_at(
    w: WireView,
    pos: int,
    rows: u64,
    flags: u64,
    dict: Col,
    nullable: bool,
) -> Read<Col> {
    match u64_at(w.bytes, pos) {
        Ok((indices, p)) => if indices != rows {
            Err(decode_index_count(indices as nat, rows as nat))
        } else {
            match index_column_at(w, p, rows as nat, flags) {
                Ok((index, q)) => Ok(
                    (
                        Col::LowCardinality {
                            dict: Box::new(dict),
                            indices: Box::new(index),
                            is_nullable_inner: nullable,
                        },
                        q,
                    ),
                ),
                Err(e) => Err(e),
            }
        },
        Err(e) => Err(e),
    }
}

/// The error of a fixed string column whose byte length no machine size holds.
pub open spec fn fixed_string_overflow() -> ErrorView {
    ErrorView::BadResponse("native: FixedString block overflow"@)
}

/// The error of a fixed string column whose strings have no width, so that its
/// bytes back no row count.
pub open spec fn fixed_string_widthless() -> ErrorView {
    ErrorView::BadResponse("native: FixedString width must be positive"@)
}

/// A fixed string column.
pub open spec fn fixed_string_column_at(w: WireView, pos: int, n: nat, width: usize) -> Read<Col> {
    if width == 0 {
        Err(fixed_string_widthless())
    } else if width * n > usize::MAX {
        Err(fixed_string_overflow())
    } else {
        mapped(
            bytes_at(w.bytes, pos, (width * n) as nat),
            |bytes: Seq<u8>| Col::FixedString { width, bytes },
        )
    }
}

/// A JSON column. The path-based serialisations reassemble into one JSON
/// document per row.
pub open spec fn json_decoded_at(w: WireView, pos: int, n: nat) -> Read<Col> {
    match u64_at(w.bytes, pos) {
        Ok((version, p)) => if version == JSON_SERIALIZATION_STRING {
            docs_of(texts_at(w, p, n))
        } else {
            documents_of(json_body_at(nested_reader(w, 1), w, p, n, version))
        },
        Err(e) => Err(e),
    }
}

/// The signed bytes.
pub open spec fn signed_column(v: Seq<u8>) -> Seq<i8> {
    v.map_values(|b: u8| twos(b as nat, 1) as i8)
}

/// A scalar column, or one that is rendered as text; `None` for the types that
/// hold other columns.
pub open spec fn scalar_at(w: WireView, pos: int, t: Ty, rows: u64) -> Option<Read<Col>> {
    let n = rows as nat;
    match t {
        Ty::UInt8 => Some(mapped(bytes_at(w.bytes, pos, n), |v: Seq<u8>| Col::UInt8(v))),
        Ty::Enum8 => Some(mapped(bytes_at(w.bytes, pos, n), |v: Seq<u8>| Col::UInt8(v))),
        Ty::Int8 => Some(
            mapped(bytes_at(w.bytes, pos, n), |v: Seq<u8>| Col::Int8(signed_column(v))),
        ),
        Ty::UInt16 => Some(mapped(le_column_at::<u16>(w, pos, n), |v: Seq<u16>| Col::UInt16(v))),
        Ty::Enum16 => Some(mapped(le_column_at::<u16>(w, pos, n), |v: Seq<u16>| Col::UInt16(v))),
        Ty::Int16 => Some(mapped(le_column_at::<i16>(w, pos, n), |v: Seq<i16>| Col::Int16(v))),
        Ty::UInt32 => Some(mapped(le_column_at::<u32>(w, pos, n), |v: Seq<u32>| Col::UInt32(v))),
        Ty::Int32 => Some(mapped(le_column_at::<i32>(w, pos, n), |v: Seq<i32>| Col::Int32(v))),
        Ty::UInt64 => Some(mapped(le_column_at::<u64>(w, pos, n), |v: Seq<u64>| Col::UInt64(v))),
        Ty::Int64 => Some(mapped(le_column_at::<i64>(w, pos, n), |v: Seq<i64>| Col::Int64(v))),
        Ty::Int128 => Some(mapped(le_column_at::<i128>(w, pos, n), |v: Seq<i128>| Col::Int128(v))),
        Ty::UInt128 => Some(
            mapped(le_column_at::<u128>(w, pos, n), |v: Seq<u128>| Col::UInt128(v)),
        ),
        Ty::Int256 => Some(mapped(wide_column_at(w, pos, n), |v: Cells| Col::Int256(v))),
        Ty::UInt256 => Some(mapped(wide_column_at(w, pos, n), |v: Cells| Col::UInt256(v))),
        Ty::Float32 => Some(mapped(le_column_at::<u32>(w, pos, n), |v: Seq<u32>| Col::Float32(v))),
        Ty::Float64 => Some(mapped(le_column_at::<u64>(w, pos, n), |v: Seq<u64>| Col::Float64(v))),
        // Precision and scale come from the type name, not the wire, and
        // are surfaced so callers read `backing / 10^scale` directly.
        Ty::Decimal32 { precision, scale } => Some(
            mapped(
                le_column_at::<i32>(w, pos, n),
                |v: Seq<i32>| Col::Decimal32 { precision, scale, values: v },
            ),
        ),
        Ty::Decimal64 { precision, scale } => Some(
            mapped(
                le_column_at::<i64>(w, pos, n),
                |v: Seq<i64>| Col::Decimal64 { precision, scale, values: v },
            ),
        ),
        Ty::Decimal128 { precision, scale } => Some(
            mapped(
                le_column_at::<i128>(w, pos, n),
                |v: Seq<i128>| Col::Decimal128 { precision, scale, values: v },
            ),
        ),
        Ty::Decimal256 { precision, scale } => Some(
            mapped(
                wide_column_at(w, pos, n),
                |v: Cells| Col::Decimal256 { precision, scale, values: v },
            ),
        ),
        Ty::String => Some(mapped(texts_at(w, pos, n), |v: Cells| Col::String(v))),
        // Legacy Object('json') is a plain String on the wire carrying one
        // document per row.
        Ty::Json => Some(docs_of(texts_at(w, pos, n))),
        Ty::FixedString(width) => Some(fixed_string_column_at(w, pos, n, width)),
        Ty::Date => Some(mapped(le_column_at::<u16>(w, pos, n), |v: Seq<u16>| Col::Date(v))),
        Ty::Date32 => Some(mapped(le_column_at::<i32>(w, pos, n), |v: Seq<i32>| Col::Date32(v))),
        Ty::DateTime => Some(
            mapped(le_column_at::<u32>(w, pos, n), |v: Seq<u32>| Col::DateTime(v)),
        ),
        // Int64 ticks on the wire; precision and timezone come from
        // the type name and are surfaced for formatting.
        Ty::DateTime64 { precision, timezone } => Some(
            mapped(
                le_column_at::<i64>(w, pos, n),
                |v: Seq<i64>| Col::DateTime64 { precision, timezone, values: v },
            ),
        ),
        Ty::Uuid => Some(mapped(blocks16_at(w, pos, n), |v: Cells| Col::Uuid(v))),
        Ty::IPv4 => Some(mapped(le_column_at::<u32>(w, pos, n), |v: Seq<u32>| Col::Ipv4(v))),
        Ty::IPv6 => Some(mapped(blocks16_at(w, pos, n), |v: Cells| Col::Ipv6(v))),
        Ty::NewJson => Some(json_decoded_at(w, pos, n)),
        Ty::Variant(_) => Some(documents_of(column_at(w, pos, t, rows))),
        Ty::Dynamic => Some(documents_of(column_at(w, pos, t, rows))),
        Ty::Nullable(_) => None,
        Ty::Array(_) => None,
        Ty::Tuple(_) => None,
        Ty::Mapping(_, _) => None,
        Ty::LowCardinality(_) => None,
        Ty::SimpleAggregateFunction(_) => None,
        // BFloat16, Time, Time64 and Point have no typed variant yet; the
        // wire bytes are still consumed so the stream pointer stays aligned.
        _ => Some(
            mapped(column_at(w, pos, t, rows), |v: Cells| Col::Unsupported(debug_text(t))),
        ),
    }
}

/// Whether none of `fields` has a typed form.
pub open spec fn all_untyped(fields: Seq<Col>) -> bool {
    forall|i: int| 0 <= i < fields.len() ==> #[trigger] fields[i] is Unsupported
}

/// The column of a tuple type `t` with these fields. Without a field that has a
/// typed form it has none either.
pub open spec fn tuple_col(fields: Seq<Col>, t: Ty) -> Col {
    if all_untyped(fields) {
        Col::Unsupported(debug_text(t))
    } else {
        Col::Tuple(fields)
    }
}

/// One column's values, `depth` levels down.
///
/// A top-level column of a zero-row block carries no bytes, the serialization
/// prefix included; a nested sub-column at zero elements may.
pub open spec fn decode_at(w: WireView, pos: int, t: Ty, rows: u64, depth: nat) -> Read<Col>
    decreases t,
{
    let n = rows as nat;
    if depth > MAX_DECODE_DEPTH {
        Err(decode_too_deep())
    } else if depth == 0 && rows == 0 {
        Ok((empty_col(t), pos))
    } else if rows > usize::MAX {
        Err(decode_too_many_rows(n))
    } else if let Some(read) = scalar_at(w, pos, t, rows) {
        read
    } else {
        match t {
            Ty::Nullable(x) => match bytes_at(w.bytes, pos, n) {
                Ok((mask, p)) => match decode_at(w, p, *x, rows, depth + 1) {
                    Ok((child, q)) => Ok((Col::Nullable { mask, child: Box::new(child) }, q)),
                    Err(e) => Err(e),
                },
                Err(e) => Err(e),
            },
            Ty::Array(x) => match offsets_at(w, pos, n, "Array"@) {
                Ok((offsets, p)) => match decode_at(
                    w,
                    p,
                    *x,
                    last_or_zero(offsets),
                    depth + 1,
                ) {
                    Ok((child, q)) => Ok((Col::Array { offsets, child: Box::new(child) }, q)),
                    Err(e) => Err(e),
                },
                Err(e) => Err(e),
            },
            Ty::Tuple(ts) => match claim::<DecodedColumn>(ts.len(), w.budget) {
                Ok(()) => match decode_fields_at(w, pos, ts, rows, depth + 1) {
                    Ok((fields, p)) => Ok((tuple_col(fields, t), p)),
                    Err(e) => Err(e),
                },
                Err(e) => Err(e),
            },
            Ty::Mapping(k, v) => match offsets_at(w, pos, n, "Map"@) {
                Ok((offsets, p)) => match decode_at(
                    w,
                    p,
                    *k,
                    last_or_zero(offsets),
                    depth + 1,
                ) {
                    Ok((keys, q)) => match decode_at(
                        w,
                        q,
                        *v,
                        last_or_zero(offsets),
                        depth + 1,
                    ) {
                        Ok((values, r)) => Ok(
                            (
                                Col::Mapping {
                                    offsets,
                                    keys: Box::new(keys),
                                    values: Box::new(values),
                                },
                                r,
                            ),
                        ),
                        Err(e) => Err(e),
                    },
                    Err(e) => Err(e),
                },
                Err(e) => Err(e),
            },
            Ty::LowCardinality(x) => match lc_head_at(w, pos) {
                Ok(((flags, size), p)) => {
                    let dict = match *x {
                        Ty::Nullable(y) => decode_at(w, p, *y, size, depth + 1),
                        _ => decode_at(w, p, *x, size, depth + 1),
                    };
                    match dict {
                        Ok((d, q)) => lc_tail_at(w, q, rows, flags, d, *x is Nullable),
                        Err(e) => Err(e),
                    }
                },
                Err(e) => Err(e),
            },
            // Wire-compatible with the inner type T.
            Ty::SimpleAggregateFunction(x) => decode_at(w, pos, *x, rows, depth + 1),
            _ => Ok((empty_col(t), pos)),
        }
    }
}

/// The columns of the fields `ts`, one behind the other.
pub open spec fn decode_fields_at(
    w: WireView,
    pos: int,
    ts: Seq<Ty>,
    rows: u64,
    depth: nat,
) -> Read<Seq<Col>>
    decreases ts,
{
    if ts.len() == 0 {
        Ok((seq![], pos))
    } else {
        match decode_fields_at(w, pos, ts.subrange(0, ts.len() - 1), rows, depth) {
            Ok((fields, p)) => match decode_at(w, p, ts[ts.len() - 1], rows, depth) {
                Ok((field, q)) => Ok((fields.push(field), q)),
                Err(e) => Err(e),
            },
            Err(e) => Err(e),
        }
    }
}

/// `r` is the outcome `s`, within `len` bytes.
pub open spec fn decodes(
    r: Result<(DecodedColumn, usize), Error>,
    s: Read<Col>,
    len: nat,
) -> bool {
    match r {
        Ok((c, p)) => s == Ok::<(Col, int), ErrorView>((c@, p as int)) && p <= len,
        Err(e) => s == Err::<(Col, int), ErrorView>(e@),
    }
}

/// A time zone of the same name.
fn copied_zone(zone: &Option<String>) -> (out: Option<String>)
    ensures
        optional_text(out) == optional_text(*zone),
{
    match zone {
        Some(z) => Some(z.clone()),
        None => None,
    }
}

/// The debug text of a type.
fn label_of(t: &ColumnType) -> (out: String)
    ensures
        out@ == debug_text(t@),
{
    let mut out = String::new();
    push_debug_text(&mut out, t);
    assert(out@ =~= debug_text(t@));
    out
}

/// The zero-row shape of `col_type`, for a block that carries no column bytes.
fn empty_column(col_type: &ColumnType) -> (out: DecodedColumn)
    ensures
        out@ == empty_col(col_type@),
    decreases col_type,
{
    match col_type {
        ColumnType::UInt8 | ColumnType::Enum8 => DecodedColumn::UInt8(Vec::new()),
        ColumnType::UInt16 | ColumnType::Enum16 => DecodedColumn::UInt16(Vec::new()),
        ColumnType::Int8 => DecodedColumn::Int8(Vec::new()),
        ColumnType::Int16 => DecodedColumn::Int16(Vec::new()),
        ColumnType::UInt32 => DecodedColumn::UInt32(Vec::new()),
        ColumnType::Int32 => DecodedColumn::Int32(Vec::new()),
        ColumnType::UInt64 => DecodedColumn::UInt64(Vec::new()),
        ColumnType::Int64 => DecodedColumn::Int64(Vec::new()),
        ColumnType::Int128 => DecodedColumn::Int128(Vec::new()),
        ColumnType::UInt128 => DecodedColumn::UInt128(Vec::new()),
        ColumnType::Float32 => DecodedColumn::Float32(Vec::new()),
        ColumnType::Float64 => DecodedColumn::Float64(Vec::new()),
        ColumnType::Date => DecodedColumn::Date(Vec::new()),
        ColumnType::Date32 => DecodedColumn::Date32(Vec::new()),
        ColumnType::DateTime => DecodedColumn::DateTime(Vec::new()),
        ColumnType::Decimal32 { precision, scale } => DecodedColumn::Decimal32 {
            precision: *precision,
            scale: *scale,
            values: Vec::new(),
        },
        ColumnType::Decimal64 { precision, scale } => DecodedColumn::Decimal64 {
            precision: *precision,
            scale: *scale,
            values: Vec::new(),
        },
        ColumnType::Decimal128 { precision, scale } => DecodedColumn::Decimal128 {
            precision: *precision,
            scale: *scale,
            values: Vec::new(),
        },
        ColumnType::Decimal256 { precision, scale } => {
            let none: Vec<[u8; 32]> = Vec::new();
            assert(blocks32(none@) =~= seq![]);
            DecodedColumn::Decimal256 { precision: *precision, scale: *scale, values: none }
        },
        ColumnType::Int256 => {
            let none: Vec<[u8; 32]> = Vec::new();
            assert(blocks32(none@) =~= seq![]);
            DecodedColumn::Int256(none)
        },
        ColumnType::UInt256 => {
            let none: Vec<[u8; 32]> = Vec::new();
            assert(blocks32(none@) =~= seq![]);
            DecodedColumn::UInt256(none)
        },
        ColumnType::String => {
            let none: ColumnData = Vec::new();
            assert(row_bytes(none@) =~= seq![]);
            DecodedColumn::String(none)
        },
        ColumnType::Json
        | ColumnType::NewJson
        | ColumnType::Variant(_)
        | ColumnType::Dynamic => {
            let none: ColumnData = Vec::new();
            assert(row_bytes(none@) =~= seq![]);
            DecodedColumn::Json(none)
        },
        ColumnType::FixedString(width) => DecodedColumn::FixedString {
            width: *width,
            bytes: Vec::new(),
        },
        ColumnType::DateTime64 { precision, timezone } => DecodedColumn::DateTime64 {
            precision: *precision,
            timezone: copied_zone(timezone),
            values: Vec::new(),
        },
        ColumnType::Uuid => {
            let none: Vec<[u8; 16]> = Vec::new();
            assert(blocks16(none@) =~= seq![]);
            DecodedColumn::Uuid(none)
        },
        ColumnType::IPv4 => DecodedColumn::Ipv4(Vec::new()),
        ColumnType::IPv6 => {
            let none: Vec<[u8; 16]> = Vec::new();
            assert(blocks16(none@) =~= seq![]);
            DecodedColumn::Ipv6(none)
        },
        ColumnType::Nullable(inner) => DecodedColumn::Nullable {
            mask: Vec::new(),
            child: Box::new(empty_column(inner)),
        },
        ColumnType::Array(inner) => DecodedColumn::Array {
            offsets: Vec::new(),
            child: Box::new(empty_column(inner)),
        },
        ColumnType::Mapping(key_type, val_type) => DecodedColumn::Mapping {
            offsets: Vec::new(),
            keys: Box::new(empty_column(key_type)),
            values: Box::new(empty_column(val_type)),
        },
        ColumnType::Tuple(fields) => {
            proof {
                lemma_tys(*fields);
            }
            let mut out: Vec<DecodedColumn> = Vec::new();
            let mut i: usize = 0;
            let ghost ts = tys(fields@);
            assert(cols(out@) =~= empty_cols(ts.subrange(0, 0)));
            while i < fields.len()
                invariant
                    i <= fields.len(),
                    ts == tys(fields@),
                    cols(out@) == empty_cols(ts.subrange(0, i as int)),
                    decreases_to!(col_type => fields),
                decreases fields.len() - i,
            {
                proof {
                    assert(ts.subrange(0, i + 1).subrange(0, i as int) =~= ts.subrange(
                        0,
                        i as int,
                    ));
                }
                let field = empty_column(&fields[i]);
                proof {
                    lemma_cols_push(out@, field);
                }
                out.push(field);
                i = i + 1;
            }
            proof {
                assert(ts.subrange(0, i as int) =~= ts);
                lemma_cols(out);
            }
            DecodedColumn::Tuple(out)
        },
        ColumnType::LowCardinality(inner) => {
            let (dict_type, nullable): (&ColumnType, bool) = match &**inner {
                ColumnType::Nullable(t) => (t, true),
                other => (other, false),
            };
            let indices = DecodedColumn::UInt8(Vec::new());
            proof {
                assert(indices@ == Col::UInt8(seq![]));
                assert(nullable == (inner@ is Nullable));
            }
            DecodedColumn::LowCardinality {
                dict: Box::new(empty_column(dict_type)),
                indices: Box::new(indices),
                is_nullable_inner: nullable,
            }
        },
        ColumnType::SimpleAggregateFunction(inner) => empty_column(inner),
        other => DecodedColumn::Unsupported(label_of(other)),
    }
}

/// Decode a number column; `None` for the other types.
fn decode_number(w: &Wire, pos: usize, col_type: &ColumnType, n: usize) -> (r: Option<
    Result<(DecodedColumn, usize), Error>,
>)
    requires
        pos <= w@.bytes.len(),
        n as u64 == n,
    ensures
        match r {
            Some(x) => match scalar_at(w@, pos as int, col_type@, n as u64) {
                Some(s) => decodes(x, s, w@.bytes.len()),
                None => false,
            },
            None => !is_number(col_type@),
        },
{
    match col_type {
        ColumnType::UInt16 | ColumnType::Enum16 => Some(
            match read_le_column::<u16>(w, pos, n) {
                Ok((v, p)) => Ok((DecodedColumn::UInt16(v), p)),
                Err(e) => Err(e),
            },
        ),
        ColumnType::Int16 => Some(
            match read_le_column::<i16>(w, pos, n) {
                Ok((v, p)) => Ok((DecodedColumn::Int16(v), p)),
                Err(e) => Err(e),
            },
        ),
        ColumnType::UInt32 => Some(
            match read_le_column::<u32>(w, pos, n) {
                Ok((v, p)) => Ok((DecodedColumn::UInt32(v), p)),
                Err(e) => Err(e),
            },
        ),
        ColumnType::Int32 => Some(
            match read_le_column::<i32>(w, pos, n) {
                Ok((v, p)) => Ok((DecodedColumn::Int32(v), p)),
                Err(e) => Err(e),
            },
        ),
        ColumnType::UInt64 => Some(
            match read_le_column::<u64>(w, pos, n) {
                Ok((v, p)) => Ok((DecodedColumn::UInt64(v), p)),
                Err(e) => Err(e),
            },
        ),
        ColumnType::Int64 => Some(
            match read_le_column::<i64>(w, pos, n) {
                Ok((v, p)) => Ok((DecodedColumn::Int64(v), p)),
                Err(e) => Err(e),
            },
        ),
        ColumnType::Int128 => Some(
            match read_le_column::<i128>(w, pos, n) {
                Ok((v, p)) => Ok((DecodedColumn::Int128(v), p)),
                Err(e) => Err(e),
            },
        ),
        ColumnType::UInt128 => Some(
            match read_le_column::<u128>(w, pos, n) {
                Ok((v, p)) => Ok((DecodedColumn::UInt128(v), p)),
                Err(e) => Err(e),
            },
        ),
        ColumnType::Float32 => Some(
            match read_le_column::<u32>(w, pos, n) {
                Ok((v, p)) => Ok((DecodedColumn::Float32(v), p)),
                Err(e) => Err(e),
            },
        ),
        ColumnType::Float64 => Some(
            match read_le_column::<u64>(w, pos, n) {
                Ok((v, p)) => Ok((DecodedColumn::Float64(v), p)),
                Err(e) => Err(e),
            },
        ),
        ColumnType::Decimal32 { precision, scale } => Some(
            match read_le_column::<i32>(w, pos, n) {
                Ok((values, p)) => Ok((DecodedColumn::Decimal32 { precision: *precision, scale: *scale, values }, p)),
                Err(e) => Err(e),
            },
        ),
        ColumnType::Decimal64 { precision, scale } => Some(
            match read_le_column::<i64>(w, pos, n) {
                Ok((values, p)) => Ok((DecodedColumn::Decimal64 { precision: *precision, scale: *scale, values }, p)),
                Err(e) => Err(e),
            },
        ),
        ColumnType::Decimal128 { precision, scale } => Some(
            match read_le_column::<i128>(w, pos, n) {
                Ok((values, p)) => Ok((DecodedColumn::Decimal128 { precision: *precision, scale: *scale, values }, p)),
                Err(e) => Err(e),
            },
        ),
        ColumnType::Date => Some(
            match read_le_column::<u16>(w, pos, n) {
                Ok((v, p)) => Ok((DecodedColumn::Date(v), p)),
                Err(e) => Err(e),
            },
        ),
        ColumnType::Date32 => Some(
            match read_le_column::<i32>(w, pos, n) {
                Ok((v, p)) => Ok((DecodedColumn::Date32(v), p)),
                Err(e) => Err(e),
            },
        ),
        ColumnType::DateTime => Some(
            match read_le_column::<u32>(w, pos, n) {
                Ok((v, p)) => Ok((DecodedColumn::DateTime(v), p)),
                Err(e) => Err(e),
            },
        ),
        ColumnType::DateTime64 { precision, timezone } => Some(
            match read_le_column::<i64>(w, pos, n) {
                Ok((values, p)) => Ok((DecodedColumn::DateTime64 { precision: *precision, timezone: copied_zone(timezone), values }, p)),
                Err(e) => Err(e),
            },
        ),
        ColumnType::IPv4 => Some(
            match read_le_column::<u32>(w, pos, n) {
                Ok((v, p)) => Ok((DecodedColumn::Ipv4(v), p)),
                Err(e) => Err(e),
            },
        ),
        _ => None,
    }
}

/// Whether a column of the type holds fixed-width numbers.
pub open spec fn is_number(t: Ty) -> bool {
    match t {
        Ty::UInt16 => true,
        Ty::Enum16 => true,
        Ty::Int16 => true,
        Ty::UInt32 => true,
        Ty::Int32 => true,
        Ty::UInt64 => true,
        Ty::Int64 => true,
        Ty::Int128 => true,
        Ty::UInt128 => true,
        Ty::Float32 => true,
        Ty::Float64 => true,
        Ty::Decimal32 { .. } => true,
        Ty::Decimal64 { .. } => true,
        Ty::Decimal128 { .. } => true,
        Ty::Date => true,
        Ty::Date32 => true,
        Ty::DateTime => true,
        Ty::DateTime64 { .. } => true,
        Ty::IPv4 => true,
        _ => false,
    }
}

/// The signed bytes.
fn signed_bytes_of(v: &Vec<u8>) -> (out: Vec<i8>)
    ensures
        out@ == signed_column(v@),
{
    let mut out: Vec<i8> = Vec::new();
    let mut i: usize = 0;
    while i < v.len()
        invariant
            i <= v.len(),
            out@.len() == i,
            forall|k: int| 0 <= k < i ==> #[trigger] out@[k] == twos(v@[k] as nat, 1) as i8,
        decreases v.len() - i,
    {
        // An `Int8` column is two's-complement on the wire, so wrapping the top
        // bit into the sign is the decode, not a defect.
        out.push(signed8(v[i]));
        i = i + 1;
    }
    assert(out@ =~= signed_column(v@));
    out
}

/// Decode a fixed string column.
fn decode_fixed_string(w: &Wire, pos: usize, n: usize, width: usize) -> (r: Result<
    (DecodedColumn, usize),
    Error,
>)
    requires
        pos <= w@.bytes.len(),
    ensures
        decodes(
            r,
            fixed_string_column_at(w@, pos as int, n as nat, width),
            w@.bytes.len(),
        ),
{
    proof {
        assert(width * n <= 0xffff_ffff_ffff_ffff * 0xffff_ffff_ffff_ffff) by (nonlinear_arith)
            requires
                0 <= n <= 0xffff_ffff_ffff_ffff,
                0 <= width <= 0xffff_ffff_ffff_ffff,
        ;
    }
    if width == 0 {
        return Err(Error::BadResponse("native: FixedString width must be positive".to_owned()));
    }
    let total: u128 = width as u128 * n as u128;
    if total > usize::MAX as u128 {
        return Err(Error::BadResponse("native: FixedString block overflow".to_owned()));
    }
    let (bytes, p) = bytes_from(w.data, pos, total as usize)?;
    Ok((DecodedColumn::FixedString { width, bytes }, p))
}

/// Decode a JSON column.
fn decode_json(w: &Wire, pos: usize, n: usize) -> (r: Result<(DecodedColumn, usize), Error>)
    requires
        pos <= w@.bytes.len(),
    ensures
        decodes(r, json_decoded_at(w@, pos as int, n as nat), w@.bytes.len()),
{
    let (version, p) = u64_from(w.data, pos)?;
    if version == JSON_SERIALIZATION_STRING {
        let (v, q) = read_texts(w, p, n)?;
        let docs = check_docs(v)?;
        return Ok((DecodedColumn::Json(docs), q));
    }
    // The path-based serialisations reassemble into one JSON
    // document per row, length-prefixed as RowBinary strings.
    let (cells, q) = read_json_body(w, p, n, version)?;
    let docs = check_docs(unwrap_json_cells(cells)?)?;
    Ok((DecodedColumn::Json(docs), q))
}

/// Decode a scalar column, or one that is rendered as text; `None` for the
/// types that hold other columns.
#[verifier::rlimit(40)]
fn decode_scalar(w: &Wire, pos: usize, col_type: &ColumnType, n: usize) -> (r: Option<
    Result<(DecodedColumn, usize), Error>,
>)
    requires
        pos <= w@.bytes.len(),
        n as u64 == n,
    ensures
        match r {
            Some(x) => match scalar_at(w@, pos as int, col_type@, n as u64) {
                Some(s) => decodes(x, s, w@.bytes.len()),
                None => false,
            },
            None => scalar_at(w@, pos as int, col_type@, n as u64) is None,
        },
{
    if let Some(r) = decode_number(w, pos, col_type, n) {
        return Some(r);
    }
    match col_type {
        ColumnType::UInt8 | ColumnType::Enum8 => Some(
            match bytes_from(w.data, pos, n) {
                Ok((v, p)) => Ok((DecodedColumn::UInt8(v), p)),
                Err(e) => Err(e),
            },
        ),
        ColumnType::Int8 => Some(
            match bytes_from(w.data, pos, n) {
                Ok((v, p)) => Ok((DecodedColumn::Int8(signed_bytes_of(&v)), p)),
                Err(e) => Err(e),
            },
        ),
        ColumnType::Int256 => Some(
            match read_u256_column(w, pos, n) {
                Ok((v, p)) => Ok((DecodedColumn::Int256(v), p)),
                Err(e) => Err(e),
            },
        ),
        ColumnType::UInt256 => Some(
            match read_u256_column(w, pos, n) {
                Ok((v, p)) => Ok((DecodedColumn::UInt256(v), p)),
                Err(e) => Err(e),
            },
        ),
        ColumnType::Decimal256 { precision, scale } => Some(
            match read_u256_column(w, pos, n) {
                Ok((values, p)) => Ok(
                    (
                        DecodedColumn::Decimal256 { precision: *precision, scale: *scale, values },
                        p,
                    ),
                ),
                Err(e) => Err(e),
            },
        ),
        ColumnType::String => Some(
            match read_texts(w, pos, n) {
                Ok((v, p)) => Ok((DecodedColumn::String(v), p)),
                Err(e) => Err(e),
            },
        ),
        ColumnType::Json => Some(
            match read_texts(w, pos, n) {
                Ok((v, p)) => match check_docs(v) {
                    Ok(docs) => Ok((DecodedColumn::Json(docs), p)),
                    Err(e) => Err(e),
                },
                Err(e) => Err(e),
            },
        ),
        ColumnType::FixedString(width) => Some(decode_fixed_string(w, pos, n, *width)),
        ColumnType::Uuid => Some(
            match read_blocks16(w, pos, n) {
                Ok((v, p)) => Ok((DecodedColumn::Uuid(v), p)),
                Err(e) => Err(e),
            },
        ),
        ColumnType::IPv6 => Some(
            match read_blocks16(w, pos, n) {
                Ok((v, p)) => Ok((DecodedColumn::Ipv6(v), p)),
                Err(e) => Err(e),
            },
        ),
        ColumnType::NewJson => Some(decode_json(w, pos, n)),
        ColumnType::Variant(_) | ColumnType::Dynamic => Some(
            match read_column(w, pos, col_type, n as u64) {
                Ok((cells, p)) => match unwrap_json_cells(cells) {
                    Ok(docs) => match check_docs(docs) {
                        Ok(docs) => Ok((DecodedColumn::Json(docs), p)),
                        Err(e) => Err(e),
                    },
                    Err(e) => Err(e),
                },
                Err(e) => Err(e),
            },
        ),
        ColumnType::Nullable(_)
        | ColumnType::Array(_)
        | ColumnType::Tuple(_)
        | ColumnType::Mapping(_, _)
        | ColumnType::LowCardinality(_)
        | ColumnType::SimpleAggregateFunction(_) => None,
        other => Some(
            match read_column(w, pos, other, n as u64) {
                Ok((_, p)) => Ok((DecodedColumn::Unsupported(label_of(other)), p)),
                Err(e) => Err(e),
            },
        ),
    }
}

/// Read the flags and the size of a `LowCardinality` dictionary.
///
/// Other clients both reject a global dictionary on the client-server path and
/// require the additional-keys bit; [`crate::native::reader`] applies the same
/// rule. Bit 10 (NeedUpdateDictionary) tells the client to discard a dictionary
/// cached across blocks; this decoder caches none, so it is not consulted.
fn read_lc_head(w: &Wire, pos: usize) -> (r: Result<((u64, u64), usize), Error>)
    requires
        pos <= w@.bytes.len(),
    ensures
        match r {
            Ok((head, p)) => lc_head_at(w@, pos as int) == Ok::<((u64, u64), int), ErrorView>(
                (head, p as int),
            ) && p <= w@.bytes.len(),
            Err(e) => lc_head_at(w@, pos as int) == Err::<((u64, u64), int), ErrorView>(e@),
        },
{
    let (flags, p) = u64_from(w.data, pos)?;
    if (flags / 0x100) % 2 == 1 {
        return Err(
            Error::BadResponse(
                "native: LowCardinality global dictionary is not supported on the client-server path (only per-block additional keys)".to_owned(),
            ),
        );
    }
    if (flags / 0x200) % 2 == 0 {
        return Err(
            Error::BadResponse(
                "native: LowCardinality block set neither the additional-keys nor the global-dictionary flag".to_owned(),
            ),
        );
    }
    let (size, q) = u64_from(w.data, p)?;
    Ok(((flags, size), q))
}

/// Read the index column of a `LowCardinality` column.
fn read_index_column(w: &Wire, pos: usize, n: usize, flags: u64) -> (r: Result<
    (DecodedColumn, usize),
    Error,
>)
    requires
        pos <= w@.bytes.len(),
    ensures
        decodes(r, index_column_at(w@, pos as int, n as nat, flags), w@.bytes.len()),
{
    if flags % 4 == 0 {
        let (v, p) = bytes_from(w.data, pos, n)?;
        Ok((DecodedColumn::UInt8(v), p))
    } else if flags % 4 == 1 {
        let (v, p) = read_le_column::<u16>(w, pos, n)?;
        Ok((DecodedColumn::UInt16(v), p))
    } else if flags % 4 == 2 {
        let (v, p) = read_le_column::<u32>(w, pos, n)?;
        Ok((DecodedColumn::UInt32(v), p))
    } else {
        let (v, p) = read_le_column::<u64>(w, pos, n)?;
        Ok((DecodedColumn::UInt64(v), p))
    }
}

/// Read the rest of a `LowCardinality` column behind its dictionary.
fn read_lc_tail(
    w: &Wire,
    pos: usize,
    n: usize,
    flags: u64,
    dict: DecodedColumn,
    nullable: bool,
) -> (r: Result<(DecodedColumn, usize), Error>)
    requires
        pos <= w@.bytes.len(),
        n as u64 == n,
    ensures
        decodes(
            r,
            lc_tail_at(w@, pos as int, n as u64, flags, dict@, nullable),
            w@.bytes.len(),
        ),
{
    let (indices, p) = u64_from(w.data, pos)?;
    if indices != n as u64 {
        let mut text = "native: LowCardinality index count ".to_owned();
        push_decimal(&mut text, indices as u128);
        text.append(" != row count ");
        push_decimal(&mut text, n as u128);
        return Err(Error::BadResponse(text));
    }
    let (index, q) = read_index_column(w, p, n, flags)?;
    Ok(
        (
            DecodedColumn::LowCardinality {
                dict: Box::new(dict),
                indices: Box::new(index),
                is_nullable_inner: nullable,
            },
            q,
        ),
    )
}

proof fn lemma_decode_fields_err(w: WireView, pos: int, ts: Seq<Ty>, rows: u64, depth: nat, k: int)
    requires
        0 <= k <= ts.len(),
        decode_fields_at(w, pos, ts.subrange(0, k), rows, depth) is Err,
    ensures
        decode_fields_at(w, pos, ts, rows, depth) == decode_fields_at(
            w,
            pos,
            ts.subrange(0, k),
            rows,
            depth,
        ),
    decreases ts.len() - k,
{
    if k < ts.len() {
        assert(ts.subrange(0, k + 1).subrange(0, k) =~= ts.subrange(0, k));
        lemma_decode_fields_err(w, pos, ts, rows, depth, k + 1);
    } else {
        assert(ts.subrange(0, k) =~= ts);
    }
}

/// Decode the columns of the fields of a tuple.
fn decode_fields(w: &Wire, pos: usize, fields: &Vec<ColumnType>, rows: u64, depth: usize) -> (r:
    Result<(Vec<DecodedColumn>, usize), Error>)
    requires
        pos <= w@.bytes.len(),
        depth <= 33,
    ensures
        match r {
            Ok((v, p)) => decode_fields_at(
                w@,
                pos as int,
                tys(fields@),
                rows,
                depth as nat,
            ) == Ok::<(Seq<Col>, int), ErrorView>((cols(v@), p as int)) && p <= w@.bytes.len(),
            Err(e) => decode_fields_at(
                w@,
                pos as int,
                tys(fields@),
                rows,
                depth as nat,
            ) == Err::<(Seq<Col>, int), ErrorView>(e@),
        },
    decreases fields, 1nat,
{
    let mut out: Vec<DecodedColumn> = Vec::new();
    let mut p: usize = pos;
    let mut i: usize = 0;
    let ghost ts = tys(fields@);
    assert(cols(out@) =~= seq![]);
    while i < fields.len()
        invariant
            i <= fields.len(),
            depth <= 33,
            p <= w@.bytes.len(),
            ts == tys(fields@),
            decode_fields_at(w@, pos as int, ts.subrange(0, i as int), rows, depth as nat) == Ok::<
                (Seq<Col>, int),
                ErrorView,
            >((cols(out@), p as int)),
        decreases fields.len() - i,
    {
        proof {
            assert(ts.subrange(0, i + 1).subrange(0, i as int) =~= ts.subrange(0, i as int));
        }
        match decode_column(w, p, &fields[i], rows, depth) {
            Ok((field, q)) => {
                proof {
                    lemma_cols_push(out@, field);
                }
                out.push(field);
                p = q;
            },
            Err(e) => {
                proof {
                    lemma_decode_fields_err(w@, pos as int, ts, rows, depth as nat, i + 1);
                }
                return Err(e);
            },
        }
        i = i + 1;
    }
    assert(ts.subrange(0, i as int) =~= ts);
    Ok((out, p))
}

/// Whether none of `fields` has a typed form.
fn without_types(fields: &Vec<DecodedColumn>) -> (yes: bool)
    ensures
        yes == all_untyped(cols(fields@)),
{
    let ghost all = cols(fields@);
    let mut i: usize = 0;
    while i < fields.len()
        invariant
            i <= fields.len(),
            all == cols(fields@),
            forall|k: int| 0 <= k < i ==> #[trigger] all[k] is Unsupported,
        decreases fields.len() - i,
    {
        if !matches!(fields[i], DecodedColumn::Unsupported(_)) {
            assert(!(all[i as int] is Unsupported));
            return false;
        }
        i = i + 1;
    }
    true
}

/// Decode one column's values into a [`DecodedColumn`].
///
/// `depth` bounds the recursion at [`MAX_DECODE_DEPTH`].
///
/// # Errors
///
/// [`Error::BadResponse`] on a column that is malformed or nests too deep,
/// [`Error::NotEnoughData`] where the bytes end early.
#[verifier::rlimit(40)]
pub fn decode_column(w: &Wire, pos: usize, col_type: &ColumnType, rows: u64, depth: usize) -> (r: Result<
    (DecodedColumn, usize),
    Error,
>)
    requires
        pos <= w@.bytes.len(),
    ensures
        decodes(
            r,
            decode_at(w@, pos as int, col_type@, rows, depth as nat),
            w@.bytes.len(),
        ),
    decreases col_type, 0nat,
{
    if depth > MAX_DECODE_DEPTH {
        return Err(error_decode_too_deep());
    }
    // `NativeWriter` writes a top-level column's payload only when the
    // block has rows, the serialization prefix included; a nested
    // sub-column at zero elements still carries its prefix.
    if depth == 0 && rows == 0 {
        return Ok((empty_column(col_type), pos));
    }
    if rows > usize::MAX as u64 {
        let mut text = "native: row count ".to_owned();
        push_decimal(&mut text, rows as u128);
        text.append(" exceeds platform usize");
        return Err(Error::BadResponse(text));
    }
    let n: usize = rows as usize;
    if let Some(r) = decode_scalar(w, pos, col_type, n) {
        return r;
    }
    match col_type {
        ColumnType::Nullable(inner) => {
            let (mask, p) = bytes_from(w.data, pos, n)?;
            let (child, q) = decode_column(w, p, inner, rows, depth + 1)?;
            Ok((DecodedColumn::Nullable { mask, child: Box::new(child) }, q))
        },
        ColumnType::Array(inner) => {
            let (offsets, p) = read_offsets(w, pos, n, "Array")?;
            let (child, q) = decode_column(w, p, inner, total_of(&offsets), depth + 1)?;
            Ok((DecodedColumn::Array { offsets, child: Box::new(child) }, q))
        },
        ColumnType::Tuple(fields) => {
            proof {
                lemma_tys(*fields);
            }
            with_cap::<DecodedColumn>(fields.len(), w.budget)?;
            let (out, p) = decode_fields(w, pos, fields, rows, depth + 1)?;
            proof {
                lemma_cols(out);
            }
            if without_types(&out) {
                return Ok((DecodedColumn::Unsupported(label_of(col_type)), p));
            }
            Ok((DecodedColumn::Tuple(out), p))
        },
        ColumnType::Mapping(key_type, val_type) => {
            let (offsets, p) = read_offsets(w, pos, n, "Map")?;
            let total: u64 = total_of(&offsets);
            let (keys, q) = decode_column(w, p, key_type, total, depth + 1)?;
            let (values, end) = decode_column(w, q, val_type, total, depth + 1)?;
            Ok(
                (
                    DecodedColumn::Mapping {
                        offsets,
                        keys: Box::new(keys),
                        values: Box::new(values),
                    },
                    end,
                ),
            )
        },
        ColumnType::LowCardinality(inner) => {
            // The version word is not read here: it is this column's
            // serialisation prefix, consumed by `decode_prefixes` before any of
            // the block's data.
            let ((flags, size), p) = read_lc_head(w, pos)?;
            let (dict_type, nullable): (&ColumnType, bool) = match &**inner {
                ColumnType::Nullable(t) => (t, true),
                other => (other, false),
            };
            assert(nullable == (inner@ is Nullable));
            let (dict, q) = decode_column(w, p, dict_type, size, depth + 1)?;
            read_lc_tail(w, q, n, flags, dict, nullable)
        },
        ColumnType::SimpleAggregateFunction(inner) => decode_column(
            w,
            pos,
            inner,
            rows,
            depth + 1,
        ),
        _ => Ok((empty_column(col_type), pos)),
    }
}

// ---------------------------------------------------------------------------
// Prefixes
// ---------------------------------------------------------------------------

/// The serialisation prefixes of the whole tree of `t`, in the order the server
/// writes them.
///
/// `LowCardinality` alone is hoisted here, because its prefix is a fixed
/// 8-byte version this decoder discards. `Dynamic`, `Variant` and `JSON`
/// carry prefixes the data phase reads values out of, so they stay inline.
pub open spec fn decode_prefixes_at(w: WireView, pos: int, t: Ty, depth: nat) -> Read<()>
    decreases t,
{
    if depth > MAX_DECODE_DEPTH {
        Err(decode_too_deep())
    } else {
        match t {
            // The dictionary is part of the data phase, so this does not
            // recurse into the inner type.
            Ty::LowCardinality(_) => match u64_at(w.bytes, pos) {
                Ok((_, p)) => Ok(((), p)),
                Err(e) => Err(e),
            },
            Ty::Nullable(x) => decode_prefixes_at(w, pos, *x, depth + 1),
            Ty::Array(x) => decode_prefixes_at(w, pos, *x, depth + 1),
            Ty::SimpleAggregateFunction(x) => decode_prefixes_at(w, pos, *x, depth + 1),
            Ty::Tuple(ts) => decode_field_prefixes_at(w, pos, ts, depth + 1),
            Ty::Mapping(k, v) => match decode_prefixes_at(w, pos, *k, depth + 1) {
                Ok((_, p)) => decode_prefixes_at(w, p, *v, depth + 1),
                Err(e) => Err(e),
            },
            _ => Ok(((), pos)),
        }
    }
}

/// The serialisation prefixes of `ts`, one type behind the other.
pub open spec fn decode_field_prefixes_at(w: WireView, pos: int, ts: Seq<Ty>, depth: nat) -> Read<()>
    decreases ts,
{
    if ts.len() == 0 {
        Ok(((), pos))
    } else {
        match decode_field_prefixes_at(w, pos, ts.subrange(0, ts.len() - 1), depth) {
            Ok((_, p)) => decode_prefixes_at(w, p, ts[ts.len() - 1], depth),
            Err(e) => Err(e),
        }
    }
}

proof fn lemma_decode_field_prefixes_err(w: WireView, pos: int, ts: Seq<Ty>, depth: nat, k: int)
    requires
        0 <= k <= ts.len(),
        decode_field_prefixes_at(w, pos, ts.subrange(0, k), depth) is Err,
    ensures
        decode_field_prefixes_at(w, pos, ts, depth) == decode_field_prefixes_at(
            w,
            pos,
            ts.subrange(0, k),
            depth,
        ),
    decreases ts.len() - k,
{
    if k < ts.len() {
        assert(ts.subrange(0, k + 1).subrange(0, k) =~= ts.subrange(0, k));
        lemma_decode_field_prefixes_err(w, pos, ts, depth, k + 1);
    } else {
        assert(ts.subrange(0, k) =~= ts);
    }
}

fn decode_field_prefixes(w: &Wire, pos: usize, types: &Vec<ColumnType>, depth: usize) -> (r: Result<
    usize,
    Error,
>)
    requires
        pos <= w@.bytes.len(),
        depth <= 33,
    ensures
        passes(
            r,
            decode_field_prefixes_at(w@, pos as int, tys(types@), depth as nat),
            w@.bytes.len(),
        ),
    decreases types, 1nat,
{
    let mut p: usize = pos;
    let mut i: usize = 0;
    let ghost ts = tys(types@);
    while i < types.len()
        invariant
            i <= types.len(),
            depth <= 33,
            ts == tys(types@),
            p <= w@.bytes.len(),
            decode_field_prefixes_at(w@, pos as int, ts.subrange(0, i as int), depth as nat)
                == Ok::<((), int), ErrorView>(((), p as int)),
        decreases types.len() - i,
    {
        proof {
            assert(ts.subrange(0, i + 1).subrange(0, i as int) =~= ts.subrange(0, i as int));
        }
        match decode_prefixes(w, p, &types[i], depth) {
            Ok(q) => {
                p = q;
            },
            Err(e) => {
                proof {
                    lemma_decode_field_prefixes_err(w@, pos as int, ts, depth as nat, i + 1);
                }
                return Err(e);
            },
        }
        i = i + 1;
    }
    assert(ts.subrange(0, i as int) =~= ts);
    Ok(p)
}

/// Consume the serialisation prefixes for `col_type`'s whole tree, in the
/// order the server writes them.
///
/// The server serialises the prefixes of the entire column before its data, so
/// every nested prefix precedes ALL of that column's data. Reading a prefix
/// inline where its child sits agrees with that only when nothing is written
/// ahead of the child: true inside a `Tuple`, false behind an `Array`'s offsets.
fn decode_prefixes(w: &Wire, pos: usize, col_type: &ColumnType, depth: usize) -> (r: Result<
    usize,
    Error,
>)
    requires
        pos <= w@.bytes.len(),
        depth <= 33,
    ensures
        passes(r, decode_prefixes_at(w@, pos as int, col_type@, depth as nat), w@.bytes.len()),
    decreases col_type, 0nat,
{
    if depth > MAX_DECODE_DEPTH {
        return Err(error_decode_too_deep());
    }
    match col_type {
        ColumnType::LowCardinality(_) => {
            let (_version, p) = u64_from(w.data, pos)?;
            Ok(p)
        },
        ColumnType::Nullable(inner)
        | ColumnType::Array(inner)
        | ColumnType::SimpleAggregateFunction(inner) => decode_prefixes(w, pos, inner, depth + 1),
        ColumnType::Tuple(types) => {
            proof {
                lemma_tys(*types);
            }
            decode_field_prefixes(w, pos, types, depth + 1)
        },
        ColumnType::Mapping(key, value) => {
            let p = decode_prefixes(w, pos, key, depth + 1)?;
            decode_prefixes(w, p, value, depth + 1)
        },
        _ => Ok(pos),
    }
}

// ---------------------------------------------------------------------------
// Blocks
// ---------------------------------------------------------------------------

/// The error of an unexpected field of the block info.
pub open spec fn info_error(field: nat, expected: Seq<char>) -> ErrorView {
    ErrorView::BadResponse("native: block info field id "@ + decimal(field) + expected)
}

/// The error of an unexpected end of the block info.
pub open spec fn info_end_error(field: nat) -> ErrorView {
    ErrorView::BadResponse("native: block info terminator "@ + decimal(field) + " (expected 0)"@)
}

/// A block's info section: `(field_id varuint, value)` pairs then a zero
/// terminator.
pub open spec fn block_info_at(d: Seq<u8>, pos: int) -> Read<()> {
    match var_uint_at(d, pos) {
        Ok((field1, p1)) => if field1 != 1 {
            Err(info_error(field1 as nat, " (expected 1 = is_overflows)"@))
        } else {
            match u8_at(d, p1) {
                Ok((_, p2)) => match var_uint_at(d, p2) {
                    Ok((field2, p3)) => if field2 != 2 {
                        Err(info_error(field2 as nat, " (expected 2 = bucket_num)"@))
                    } else {
                        match u32_at(d, p3) {
                            Ok((_, p4)) => match var_uint_at(d, p4) {
                                Ok((end, p5)) => if end != 0 {
                                    Err(info_end_error(end as nat))
                                } else {
                                    Ok(((), p5))
                                },
                                Err(e) => Err(e),
                            },
                            Err(e) => Err(e),
                        }
                    },
                    Err(e) => Err(e),
                },
                Err(e) => Err(e),
            }
        },
        Err(e) => Err(e),
    }
}

fn error_info(field: u64, expected: &str) -> (e: Error)
    ensures
        e@ == info_error(field as nat, expected@),
{
    let mut text = "native: block info field id ".to_owned();
    push_decimal(&mut text, field as u128);
    text.append(expected);
    Error::BadResponse(text)
}

/// Consume a block's info section. `NativeWriter` emits it whenever the client
/// revision is above zero, so both transports read it here.
///
/// The values mean nothing to a non-distributed client, but the field ids are
/// asserted rather than skipped: a misaligned or hostile encoder then surfaces
/// as a clean error instead of a silently mis-parsed block. Field 3
/// (`out_of_order_buckets`) appears only above the 54459 pin, so a revision
/// bump past 54480 must revisit this.
///
/// # Errors
///
/// [`Error::BadResponse`] on an unexpected field id or terminator.
pub fn read_block_info(d: &[u8], pos: usize) -> (r: Result<usize, Error>)
    requires
        pos <= d@.len(),
    ensures
        passes(r, block_info_at(d@, pos as int), d@.len()),
{
    let (field1, p) = var_uint_from(d, pos)?;
    if field1 != 1 {
        return Err(error_info(field1, " (expected 1 = is_overflows)"));
    }
    let (_is_overflows, p) = u8_from(d, p)?;
    let (field2, p) = var_uint_from(d, p)?;
    if field2 != 2 {
        return Err(error_info(field2, " (expected 2 = bucket_num)"));
    }
    let (_bucket_num, p) = u32_from(d, p)?;
    let (terminator, p) = var_uint_from(d, p)?;
    if terminator != 0 {
        let mut text = "native: block info terminator ".to_owned();
        push_decimal(&mut text, terminator as u128);
        text.append(" (expected 0)");
        return Err(Error::BadResponse(text));
    }
    Ok(p)
}

/// The error of a length a server declared but cannot back with payload.
pub open spec fn refused_error(what: Seq<char>, got: nat, cap: nat) -> ErrorView {
    ErrorView::BadResponse(
        "native: block declares "@ + decimal(got) + " "@ + what + ", above the "@ + decimal(cap)
            + " cap"@,
    )
}

/// Reject a length a server declared but cannot back with payload.
fn refused(what: &str, got: u64, cap: u64) -> (e: Error)
    ensures
        e@ == refused_error(what@, got as nat, cap as nat),
{
    let mut text = "native: block declares ".to_owned();
    push_decimal(&mut text, got as u128);
    text.append(" ");
    text.append(what);
    text.append(", above the ");
    push_decimal(&mut text, cap as u128);
    text.append(" cap");
    Error::BadResponse(text)
}

/// The error of a column that is not serialised normally.
pub open spec fn custom_error(name: Seq<char>, flag: u8) -> ErrorView {
    ErrorView::BadResponse(
        "native: column '"@ + name + "' uses custom serialization flag "@ + decimal(flag as nat)
            + " -- only normal (0) is supported"@,
    )
}

/// The error of a column of an unknown type. The stream pointer cannot advance
/// past a type of unknown size.
pub open spec fn unknown_type(name: Seq<char>, declared: Seq<char>) -> ErrorView {
    ErrorView::BadResponse(
        "native: server announced unknown column type '"@ + declared + "' for column '"@ + name
            + "'"@,
    )
}

/// Only normal serialisation (0) is decoded; a sparse or otherwise
/// custom-serialised column would misalign the body bytes.
pub open spec fn custom_flag_at(w: WireView, pos: int, custom: bool, name: Seq<char>) -> Read<()> {
    if custom {
        match u8_at(w.bytes, pos) {
            Ok((flag, p)) => if flag != 0 {
                Err(custom_error(name, flag))
            } else {
                Ok(((), p))
            },
            Err(e) => Err(e),
        }
    } else {
        Ok(((), pos))
    }
}

/// The values of a column of type `t`, prefixes included. A header block
/// declares its columns and carries no bytes for any of them, the serialisation
/// prefix included.
pub open spec fn block_values_at(w: WireView, pos: int, t: Ty, rows: u64) -> Read<Col> {
    if rows > 0 {
        match decode_prefixes_at(w, pos, t, 0) {
            Ok((_, p)) => decode_at(w, p, t, rows, 0),
            Err(e) => Err(e),
        }
    } else {
        decode_at(w, pos, t, rows, 0)
    }
}

/// A column as a block announces it: name, type, and values.
pub type Announced = ((Seq<char>, Seq<char>), Col);

/// The values of announced columns.
pub open spec fn announced_columns(all: Seq<Announced>) -> Seq<Col> {
    all.map_values(|a: Announced| a.1)
}

/// The names and types of announced columns.
pub open spec fn announced_schema(all: Seq<Announced>) -> Seq<(Seq<char>, Seq<char>)> {
    all.map_values(|a: Announced| a.0)
}

proof fn lemma_announced_push(
    schema: Seq<(String, String)>,
    columns: Seq<DecodedColumn>,
    all: Seq<Announced>,
    head: (String, String),
    col: DecodedColumn,
)
    requires
        pair_texts(schema) == announced_schema(all),
        cols(columns) == announced_columns(all),
    ensures
        pair_texts(schema.push(head)) == announced_schema(
            all.push(((head.0@, head.1@), col@)),
        ),
        cols(columns.push(col)) == announced_columns(all.push(((head.0@, head.1@), col@))),
{
    let next = all.push(((head.0@, head.1@), col@));
    lemma_cols_push(columns, col);
    assert(pair_texts(schema.push(head)) =~= pair_texts(schema).push((head.0@, head.1@)));
    assert(announced_schema(next) =~= announced_schema(all).push((head.0@, head.1@)));
    assert(announced_columns(next) =~= announced_columns(all).push(col@));
}

/// Columns as a block announces them.
pub open spec fn announced_reader(w: WireView, rows: u64, custom: bool) -> spec_fn(int) -> Read<
    Announced,
> {
    |pos: int|
        match utf8_string_at(w.bytes, pos) {
            Ok((name, p)) => match utf8_string_at(w.bytes, p) {
                Ok((declared, q)) => match custom_flag_at(w, q, custom, name) {
                    Ok((_, s)) => match type_of(declared) {
                        Some(t) => match block_values_at(w, s, t, rows) {
                            Ok((col, e)) => Ok((((name, declared), col), e)),
                            Err(e) => Err(e),
                        },
                        None => Err(unknown_type(name, declared)),
                    },
                    Err(e) => Err(e),
                },
                Err(e) => Err(e),
            },
            Err(e) => Err(e),
        }
}

/// [`announced_reader`], as a whole.
#[verifier::opaque]
pub open spec fn column_reader(w: WireView, rows: u64, custom: bool) -> spec_fn(int) -> Read<
    Announced,
> {
    announced_reader(w, rows, custom)
}

/// A Native-format data block body.
pub open spec fn block_at(
    w: WireView,
    pos: int,
    num_columns: u64,
    num_rows: u64,
    revision: u64,
) -> Read<BlockView> {
    if num_columns > MAX_BLOCK_COLUMNS {
        Err(refused_error("columns"@, num_columns as nat, MAX_BLOCK_COLUMNS as nat))
    } else if num_rows > MAX_BLOCK_ROWS {
        Err(refused_error("rows"@, num_rows as nat, MAX_BLOCK_ROWS as nat))
    } else {
        match claim::<(String, String)>(num_columns as nat, w.budget) {
            Ok(()) => match claim::<DecodedColumn>(num_columns as nat, w.budget) {
                Ok(()) => match many(
                    announced_reader(w, num_rows, has_custom(revision)),
                    pos,
                    num_columns as nat,
                ) {
                    Ok((all, p)) => Ok(
                        (
                            BlockView {
                                columns: announced_columns(all),
                                schema: announced_schema(all),
                                num_rows,
                            },
                            p,
                        ),
                    ),
                    Err(e) => Err(e),
                },
                Err(e) => Err(e),
            },
            Err(e) => Err(e),
        }
    }
}

/// Decode one announced column.
#[verifier::rlimit(40)]
fn decode_announced(w: &Wire, pos: usize, rows: u64, custom: bool) -> (r: Result<
    ((String, String), DecodedColumn, usize),
    Error,
>)
    requires
        pos <= w@.bytes.len(),
    ensures
        match r {
            Ok((head, col, p)) => announced_reader(w@, rows, custom)(pos as int) == Ok::<
                (Announced, int),
                ErrorView,
            >((((head.0@, head.1@), col@), p as int)) && p <= w@.bytes.len(),
            Err(e) => announced_reader(w@, rows, custom)(pos as int) == Err::<
                (Announced, int),
                ErrorView,
            >(e@),
        },
{
    let (name, p) = utf8_string_from(w.data, pos)?;
    let (declared, q) = utf8_string_from(w.data, p)?;
    let start: usize = if custom {
        let (flag, s) = u8_from(w.data, q)?;
        if flag != 0 {
            let mut text = "native: column '".to_owned();
            text.append(name.as_str());
            text.append("' uses custom serialization flag ");
            push_decimal(&mut text, flag as u128);
            text.append(" -- only normal (0) is supported");
            return Err(Error::BadResponse(text));
        }
        s
    } else {
        q
    };
    match ColumnType::parse(declared.as_str()) {
        Some(t) => {
            let data: usize = if rows > 0 {
                decode_prefixes(w, start, &t, 0)?
            } else {
                start
            };
            let (col, end) = decode_column(w, data, &t, rows, 0)?;
            Ok(((name, declared), col, end))
        },
        None => {
            let mut text = "native: server announced unknown column type '".to_owned();
            text.append(declared.as_str());
            text.append("' for column '");
            text.append(name.as_str());
            text.append("'");
            Err(Error::BadResponse(text))
        },
    }
}

/// Decode the next column that a block announces.
fn decode_next(w: &Wire, pos: usize, rows: u64, custom: bool) -> (r: Result<
    ((String, String), DecodedColumn, usize),
    Error,
>)
    requires
        pos <= w@.bytes.len(),
    ensures
        match r {
            Ok((head, col, p)) => column_reader(w@, rows, custom)(pos as int) == Ok::<
                (Announced, int),
                ErrorView,
            >((((head.0@, head.1@), col@), p as int)) && p <= w@.bytes.len(),
            Err(e) => column_reader(w@, rows, custom)(pos as int) == Err::<
                (Announced, int),
                ErrorView,
            >(e@),
        },
{
    proof {
        reveal(column_reader);
    }
    decode_announced(w, pos, rows, custom)
}

/// Read one Native-format data block body.
///
/// `pos` MUST be immediately after the `num_columns` + `num_rows` varuint pair
/// the caller already consumed from the block header. The decoder consumes
/// exactly the column-payload bytes for `num_columns` columns at `num_rows`
/// rows; the returned position is aligned for whatever the transport puts next.
///
/// `server_revision` decides whether the per-column custom-serialization
/// flag byte is on the wire; current servers always write it.
///
/// A block at `num_rows == 0` declares its columns and carries no payload for
/// any of them, the per-type serialization prefix included.
///
/// # Errors
///
/// - [`Error::BadResponse`] if a column header is malformed (varuint
///   overflow, length cap exceeded) or a composite-column offset list
///   is non-monotonic.
/// - [`Error::InvalidUtf8Encoding`] if a JSON document is not UTF-8.
/// - [`Error::NotEnoughData`] if the bytes end inside the block.
/// - [`Error::TextNeeded`] if a document needs the text of a number that
///   `w.texts` does not hold.
#[verifier::rlimit(40)]
pub fn decode_block(
    w: &Wire,
    pos: usize,
    num_columns: u64,
    num_rows: u64,
    server_revision: u64,
) -> (r: Result<(DecodedBlock, usize), Error>)
    requires
        pos <= w@.bytes.len(),
    ensures
        reads(
            r,
            block_at(w@, pos as int, num_columns, num_rows, server_revision),
            w@.bytes.len(),
        ),
{
    let custom = server_revision >= DBMS_MIN_PROTOCOL_VERSION_WITH_CUSTOM_SERIALIZATION;
    // Both counts are varuints the server chose; five bytes of header can ask
    // for terabytes of column buffer, so they are capped before anything is
    // sized from them.
    if num_columns > MAX_BLOCK_COLUMNS {
        return Err(refused("columns", num_columns, MAX_BLOCK_COLUMNS));
    }
    if num_rows > MAX_BLOCK_ROWS {
        return Err(refused("rows", num_rows, MAX_BLOCK_ROWS));
    }
    let count: usize = num_columns as usize;
    let mut schema: Vec<(String, String)> = with_cap(count, w.budget)?;
    let mut columns: Vec<DecodedColumn> = with_cap(count, w.budget)?;
    let mut p: usize = pos;
    let mut i: usize = 0;
    let ghost read = column_reader(w@, num_rows, custom);
    let ghost mut all: Seq<Announced> = seq![];
    assert(pair_texts(schema@) =~= announced_schema(all));
    assert(cols(columns@) =~= announced_columns(all));
    while i < count
        invariant
            i <= count,
            count == num_columns,
            num_columns <= MAX_BLOCK_COLUMNS,
            num_rows <= MAX_BLOCK_ROWS,
            custom == has_custom(server_revision),
            claim::<(String, String)>(num_columns as nat, w@.budget) is Ok,
            claim::<DecodedColumn>(num_columns as nat, w@.budget) is Ok,
            p <= w@.bytes.len(),
            read == column_reader(w@, num_rows, custom),
            many(read, pos as int, i as nat) == Ok::<(Seq<Announced>, int), ErrorView>(
                (all, p as int),
            ),
            pair_texts(schema@) == announced_schema(all),
            cols(columns@) == announced_columns(all),
        decreases count - i,
    {
        match decode_next(w, p, num_rows, custom) {
            Ok((head, col, q)) => {
                proof {
                    lemma_announced_push(schema@, columns@, all, head, col);
                    all = all.push(((head.0@, head.1@), col@));
                }
                schema.push(head);
                columns.push(col);
                p = q;
            },
            Err(e) => {
                proof {
                    lemma_many_err(read, pos as int, (i + 1) as nat, count as nat);
                    reveal(column_reader);
                }
                return Err(e);
            },
        }
        i = i + 1;
    }
    proof {
        reveal(column_reader);
    }
    Ok((DecodedBlock { columns, schema, num_rows }, p))
}

} // verus!
