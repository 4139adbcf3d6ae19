//! Decoded columns and blocks, and their typed reads.

use vstd::prelude::*;
use vstd::string::*;

use crate::error::{optional_text, Error, ErrorView};
use crate::native::encode::{each, lemma_each_err, pair_texts, row_bytes};
use crate::native::io::{utf8_error_text, utf8_text};
use crate::native::reader::Cells;
use crate::text::{chars_of, same_chars};

verus! {

/// One column of a decoded Native block, runtime-typed.
///
/// Scalar variants hold contiguous buffers in the columnar layout the wire
/// produced; composite variants box their child columns. Floating point numbers
/// are held as their bits.
#[derive(Debug)]
#[non_exhaustive]
#[allow(inconsistent_fields)]
pub enum DecodedColumn {
    // Numeric scalars.
    /// `UInt8` values in wire order -- `Bool` and `Enum8` decode here too.
    UInt8(Vec<u8>),
    /// `UInt16` values in wire order -- `Enum16` decodes here too.
    UInt16(Vec<u16>),
    /// `UInt32` values in wire order.
    UInt32(Vec<u32>),
    /// `UInt64` values in wire order.
    UInt64(Vec<u64>),
    /// `Int8` values in wire order.
    Int8(Vec<i8>),
    /// `Int16` values in wire order.
    Int16(Vec<i16>),
    /// `Int32` values in wire order.
    Int32(Vec<i32>),
    /// `Int64` values in wire order.
    Int64(Vec<i64>),
    /// `Int128` values in wire order.
    Int128(Vec<i128>),
    /// `UInt128` values in wire order.
    UInt128(Vec<u128>),
    /// 256-bit integers carried as raw little-endian 32-byte values
    /// (Rust has no native i256/u256). Callers interpret as needed.
    Int256(Vec<[u8; 32]>),
    /// `UInt256` values as raw little-endian 32-byte blocks.
    UInt256(Vec<[u8; 32]>),
    /// Bits of `Float32` values in wire order.
    Float32(Vec<u32>),
    /// Bits of `Float64` values in wire order.
    Float64(Vec<u64>),
    /// `Decimal(P, S)` decoded as its backing little-endian integer
    /// (32/64/128/256-bit by precision). `precision` (total digits) and
    /// `scale` (fractional digits) are carried from the column type --
    /// the value is `backing / 10^scale`. They are NOT on the wire; the
    /// decoder lifts them from the parsed `ColumnType`.
    Decimal32 {
        /// Total decimal digits, from the column type.
        precision: u8,
        /// Fractional digits, from the column type.
        scale: u8,
        /// Backing `Int32` values in wire order.
        values: Vec<i32>,
    },
    /// `Decimal(P, S)` on an `Int64` backing integer.
    Decimal64 {
        /// Total decimal digits, from the column type.
        precision: u8,
        /// Fractional digits, from the column type.
        scale: u8,
        /// Backing `Int64` values in wire order.
        values: Vec<i64>,
    },
    /// `Decimal(P, S)` on an `Int128` backing integer.
    Decimal128 {
        /// Total decimal digits, from the column type.
        precision: u8,
        /// Fractional digits, from the column type.
        scale: u8,
        /// Backing `Int128` values in wire order.
        values: Vec<i128>,
    },
    /// `Decimal(P, S)` on an `Int256` backing integer.
    Decimal256 {
        /// Total decimal digits, from the column type.
        precision: u8,
        /// Fractional digits, from the column type.
        scale: u8,
        /// Backing `Int256` values as raw little-endian 32-byte blocks.
        values: Vec<[u8; 32]>,
    },
    // Variable-length scalars.
    /// `String` values as raw bytes -- `ClickHouse` does not guarantee UTF-8.
    String(Vec<Vec<u8>>),
    /// One JSON document per row, as UTF-8 text with no length prefix. Carries
    /// `JSON`, `Object('json')`, `Variant` and `Dynamic` columns, whose wire
    /// shapes have no single Rust type.
    Json(Vec<Vec<u8>>),
    /// `FixedString(N)` rows concatenated -- row `i` is `bytes[i * width..][..width]`.
    FixedString {
        /// `N` from the column type, in bytes.
        width: usize,
        /// Every row concatenated, `width` bytes each.
        bytes: Vec<u8>,
    },
    // Date / time.
    /// `Date`: unsigned days since the Unix epoch.
    Date(Vec<u16>),
    /// `Date32`: signed days since the Unix epoch.
    Date32(Vec<i32>),
    /// `DateTime`: unsigned seconds since the Unix epoch.
    DateTime(Vec<u32>),
    /// `DateTime64`: Int64 ticks at `precision` sub-second digits, with the
    /// optional IANA `timezone` from the type name. Both come from the
    /// parsed `ColumnType`, not the wire.
    DateTime64 {
        /// Sub-second digits, from the column type.
        precision: u8,
        /// IANA timezone from the column type, absent when the type omits it.
        timezone: Option<String>,
        /// `Int64` tick counts in wire order.
        values: Vec<i64>,
    },
    // Network.
    /// `UUID` values as their 16 wire bytes.
    Uuid(Vec<[u8; 16]>),
    /// `IPv4` addresses as their backing `UInt32`.
    Ipv4(Vec<u32>),
    /// `IPv6` addresses as their 16 wire bytes.
    Ipv6(Vec<[u8; 16]>),
    // Composites.
    /// `mask[i] == 1` => row `i` is null; `child[i]` still exists with a
    /// placeholder value (matching the Native wire shape).
    Nullable {
        /// One byte per row -- 1 marks the row NULL.
        mask: Vec<u8>,
        /// Values for every row, null slots included.
        child: Box<DecodedColumn>,
    },
    /// Cumulative end-offsets; row `i` spans `child[offsets[i-1]..offsets[i]]`.
    Array {
        /// Cumulative element end-offsets, one per row.
        offsets: Vec<u64>,
        /// Flat element column indexed by `offsets`.
        child: Box<DecodedColumn>,
    },
    /// Per-block dictionary + per-row indices. Resolved at access time;
    /// the cursor narrows to `child[indices[row]]` when iterating.
    LowCardinality {
        /// Per-block dictionary -- the inner type with `Nullable` stripped.
        dict: Box<DecodedColumn>,
        /// One unsigned dictionary index per row, at the width the block declared.
        indices: Box<DecodedColumn>,
        /// True when the LC inner type is `Nullable(T)`. Dictionary
        /// index 0 then represents NULL.
        is_nullable_inner: bool,
    },
    /// One decoded column per tuple field, in declaration order.
    Tuple(Vec<DecodedColumn>),
    /// `Map(K, V)` as cumulative pair offsets over flat key and value columns.
    Mapping {
        /// Cumulative key-value pair end-offsets, one per row.
        offsets: Vec<u64>,
        /// Flat key column indexed by `offsets`.
        keys: Box<DecodedColumn>,
        /// Flat value column indexed by `offsets`.
        values: Box<DecodedColumn>,
    },
    /// Type recognised by the parser but not decoded. The wire bytes have been
    /// consumed (so the stream pointer is correct); per-row access on this
    /// variant returns an error.
    Unsupported(String),
}

/// The mathematical value of a [`DecodedColumn`].
#[allow(inconsistent_fields)]
pub enum Col {
    UInt8(Seq<u8>),
    UInt16(Seq<u16>),
    UInt32(Seq<u32>),
    UInt64(Seq<u64>),
    Int8(Seq<i8>),
    Int16(Seq<i16>),
    Int32(Seq<i32>),
    Int64(Seq<i64>),
    Int128(Seq<i128>),
    UInt128(Seq<u128>),
    Int256(Cells),
    UInt256(Cells),
    Float32(Seq<u32>),
    Float64(Seq<u64>),
    Decimal32 { precision: u8, scale: u8, values: Seq<i32> },
    Decimal64 { precision: u8, scale: u8, values: Seq<i64> },
    Decimal128 { precision: u8, scale: u8, values: Seq<i128> },
    Decimal256 { precision: u8, scale: u8, values: Cells },
    String(Cells),
    Json(Cells),
    FixedString { width: usize, bytes: Seq<u8> },
    Date(Seq<u16>),
    Date32(Seq<i32>),
    DateTime(Seq<u32>),
    DateTime64 { precision: u8, timezone: Option<Seq<char>>, values: Seq<i64> },
    Uuid(Cells),
    Ipv4(Seq<u32>),
    Ipv6(Cells),
    Nullable { mask: Seq<u8>, child: Box<Col> },
    Array { offsets: Seq<u64>, child: Box<Col> },
    LowCardinality { dict: Box<Col>, indices: Box<Col>, is_nullable_inner: bool },
    Tuple(Seq<Col>),
    Mapping { offsets: Seq<u64>, keys: Box<Col>, values: Box<Col> },
    Unsupported(Seq<char>),
}

/// The bytes of 32-byte blocks.
pub open spec fn blocks32(v: Seq<[u8; 32]>) -> Cells {
    v.map_values(|b: [u8; 32]| b@)
}

/// The bytes of 16-byte blocks.
pub open spec fn blocks16(v: Seq<[u8; 16]>) -> Cells {
    v.map_values(|b: [u8; 16]| b@)
}

impl DecodedColumn {
    /// The mathematical value of the column.
    pub open spec fn col(self) -> Col
        decreases self,
    {
        match self {
            DecodedColumn::UInt8(v) => Col::UInt8(v@),
            DecodedColumn::UInt16(v) => Col::UInt16(v@),
            DecodedColumn::UInt32(v) => Col::UInt32(v@),
            DecodedColumn::UInt64(v) => Col::UInt64(v@),
            DecodedColumn::Int8(v) => Col::Int8(v@),
            DecodedColumn::Int16(v) => Col::Int16(v@),
            DecodedColumn::Int32(v) => Col::Int32(v@),
            DecodedColumn::Int64(v) => Col::Int64(v@),
            DecodedColumn::Int128(v) => Col::Int128(v@),
            DecodedColumn::UInt128(v) => Col::UInt128(v@),
            DecodedColumn::Int256(v) => Col::Int256(blocks32(v@)),
            DecodedColumn::UInt256(v) => Col::UInt256(blocks32(v@)),
            DecodedColumn::Float32(v) => Col::Float32(v@),
            DecodedColumn::Float64(v) => Col::Float64(v@),
            DecodedColumn::Decimal32 { precision, scale, values } => Col::Decimal32 {
                precision,
                scale,
                values: values@,
            },
            DecodedColumn::Decimal64 { precision, scale, values } => Col::Decimal64 {
                precision,
                scale,
                values: values@,
            },
            DecodedColumn::Decimal128 { precision, scale, values } => Col::Decimal128 {
                precision,
                scale,
                values: values@,
            },
            DecodedColumn::Decimal256 { precision, scale, values } => Col::Decimal256 {
                precision,
                scale,
                values: blocks32(values@),
            },
            DecodedColumn::String(v) => Col::String(row_bytes(v@)),
            DecodedColumn::Json(v) => Col::Json(row_bytes(v@)),
            DecodedColumn::FixedString { width, bytes } => Col::FixedString {
                width,
                bytes: bytes@,
            },
            DecodedColumn::Date(v) => Col::Date(v@),
            DecodedColumn::Date32(v) => Col::Date32(v@),
            DecodedColumn::DateTime(v) => Col::DateTime(v@),
            DecodedColumn::DateTime64 { precision, timezone, values } => Col::DateTime64 {
                precision,
                timezone: optional_text(timezone),
                values: values@,
            },
            DecodedColumn::Uuid(v) => Col::Uuid(blocks16(v@)),
            DecodedColumn::Ipv4(v) => Col::Ipv4(v@),
            DecodedColumn::Ipv6(v) => Col::Ipv6(blocks16(v@)),
            DecodedColumn::Nullable { mask, child } => Col::Nullable {
                mask: mask@,
                child: Box::new(child.col()),
            },
            DecodedColumn::Array { offsets, child } => Col::Array {
                offsets: offsets@,
                child: Box::new(child.col()),
            },
            DecodedColumn::LowCardinality { dict, indices, is_nullable_inner } =>
                Col::LowCardinality {
                    dict: Box::new(dict.col()),
                    indices: Box::new(indices.col()),
                    is_nullable_inner,
                },
            DecodedColumn::Tuple(fields) => Col::Tuple(
                Seq::new(
                    fields@.len(),
                    |i: int|
                        if 0 <= i < fields@.len() {
                            fields@[i].col()
                        } else {
                            Col::UInt8(seq![])
                        },
                ),
            ),
            DecodedColumn::Mapping { offsets, keys, values } => Col::Mapping {
                offsets: offsets@,
                keys: Box::new(keys.col()),
                values: Box::new(values.col()),
            },
            DecodedColumn::Unsupported(s) => Col::Unsupported(s@),
        }
    }
}

impl View for DecodedColumn {
    type V = Col;

    open spec fn view(&self) -> Col {
        self.col()
    }
}

/// The mathematical values of a list of columns.
pub open spec fn cols(v: Seq<DecodedColumn>) -> Seq<Col> {
    v.map_values(|c: DecodedColumn| c.col())
}

pub proof fn lemma_cols_push(v: Seq<DecodedColumn>, c: DecodedColumn)
    ensures
        cols(v.push(c)) == cols(v).push(c@),
{
    assert(cols(v.push(c)) =~= cols(v).push(c@));
}

/// A tuple column is made of the columns of its list.
pub proof fn lemma_cols(v: Vec<DecodedColumn>)
    ensures
        DecodedColumn::Tuple(v)@ == Col::Tuple(cols(v@)),
{
    assert(DecodedColumn::Tuple(v).col()->Tuple_0 =~= cols(v@));
}

/// Whether a column tells how many rows it has. One without a typed form does
/// not, nor does one of strings without width; a tuple tells what any of its
/// fields does.
pub open spec fn reports_rows(c: Col) -> bool
    decreases c,
{
    match c {
        Col::Unsupported(_) => false,
        Col::FixedString { width, .. } => width > 0,
        Col::LowCardinality { indices, .. } => reports_rows(*indices),
        Col::Tuple(fields) => any_reports(fields),
        _ => true,
    }
}

/// Whether any of `fields` tells how many rows it has.
pub open spec fn any_reports(fields: Seq<Col>) -> bool
    decreases fields,
{
    fields.len() > 0 && (any_reports(fields.subrange(0, fields.len() - 1)) || reports_rows(
        fields[fields.len() - 1],
    ))
}

/// The rows of the first of `fields` that tells how many it has.
pub open spec fn field_rows(fields: Seq<Col>) -> nat
    decreases fields,
{
    if fields.len() == 0 {
        0
    } else {
        let before = fields.subrange(0, fields.len() - 1);
        if any_reports(before) {
            field_rows(before)
        } else {
            row_count_of(fields[fields.len() - 1])
        }
    }
}

/// What the fields before place `k` say stays.
proof fn lemma_field_rows(fields: Seq<Col>, k: int)
    requires
        0 <= k <= fields.len(),
        any_reports(fields.subrange(0, k)),
    ensures
        any_reports(fields),
        field_rows(fields) == field_rows(fields.subrange(0, k)),
    decreases fields.len() - k,
{
    if k < fields.len() {
        assert(fields.subrange(0, k + 1).subrange(0, k) =~= fields.subrange(0, k));
        lemma_field_rows(fields, k + 1);
    } else {
        assert(fields.subrange(0, k) =~= fields);
    }
}

/// Number of logical rows a column carries. For composite variants the count is
/// the OUTER row count, not the cumulative child-element count.
pub open spec fn row_count_of(c: Col) -> nat
    decreases c,
{
    match c {
        Col::UInt8(v) => v.len(),
        Col::UInt16(v) => v.len(),
        Col::UInt32(v) => v.len(),
        Col::UInt64(v) => v.len(),
        Col::Int8(v) => v.len(),
        Col::Int16(v) => v.len(),
        Col::Int32(v) => v.len(),
        Col::Int64(v) => v.len(),
        Col::Int128(v) => v.len(),
        Col::UInt128(v) => v.len(),
        Col::Int256(v) => v.len(),
        Col::UInt256(v) => v.len(),
        Col::Float32(v) => v.len(),
        Col::Float64(v) => v.len(),
        Col::Decimal32 { values, .. } => values.len(),
        Col::Decimal64 { values, .. } => values.len(),
        Col::Decimal128 { values, .. } => values.len(),
        Col::Decimal256 { values, .. } => values.len(),
        Col::String(v) => v.len(),
        Col::Json(v) => v.len(),
        Col::FixedString { width, bytes } => if width == 0 {
            0
        } else {
            bytes.len() / width as nat
        },
        Col::Date(v) => v.len(),
        Col::Date32(v) => v.len(),
        Col::DateTime(v) => v.len(),
        Col::DateTime64 { values, .. } => values.len(),
        Col::Uuid(v) => v.len(),
        Col::Ipv4(v) => v.len(),
        Col::Ipv6(v) => v.len(),
        Col::Nullable { mask, .. } => mask.len(),
        Col::Array { offsets, .. } => offsets.len(),
        Col::LowCardinality { indices, .. } => row_count_of(*indices),
        Col::Tuple(fields) => field_rows(fields),
        Col::Mapping { offsets, .. } => offsets.len(),
        // Unsupported columns surface as zero rows so callers that
        // ignore the variant don't loop over uninitialised state.
        Col::Unsupported(_) => 0,
    }
}

/// The rows of the first of `fields` that tells how many it has.
fn count_fields(fields: &Vec<DecodedColumn>) -> (n: usize)
    ensures
        n == field_rows(cols(fields@)),
    decreases fields, 1nat,
{
    let ghost all = cols(fields@);
    let mut i: usize = 0;
    let mut n: usize = 0;
    while i < fields.len()
        invariant
            i <= fields.len(),
            all == cols(fields@),
            !any_reports(all.subrange(0, i as int)),
            n == field_rows(all.subrange(0, i as int)),
        decreases fields.len() - i,
    {
        proof {
            assert(all.subrange(0, i + 1).subrange(0, i as int) =~= all.subrange(0, i as int));
        }
        n = fields[i].row_count();
        if fields[i].reports_rows() {
            proof {
                lemma_field_rows(all, i + 1);
            }
            return n;
        }
        i = i + 1;
    }
    assert(all.subrange(0, i as int) =~= all);
    n
}

impl DecodedColumn {
    /// Whether this column tells how many rows it has.
    fn reports_rows(&self) -> (yes: bool)
        ensures
            yes == reports_rows(self@),
        decreases self,
    {
        match self {
            DecodedColumn::Unsupported(_) => false,
            DecodedColumn::FixedString { width, .. } => *width > 0,
            DecodedColumn::LowCardinality { indices, .. } => indices.reports_rows(),
            DecodedColumn::Tuple(fields) => {
                let ghost all = cols(fields@);
                proof {
                    lemma_cols(*fields);
                }
                let mut i: usize = 0;
                while i < fields.len()
                    invariant
                        i <= fields.len(),
                        all == cols(fields@),
                        self@ == Col::Tuple(all),
                        !any_reports(all.subrange(0, i as int)),
                        decreases_to!(self => fields),
                    decreases fields.len() - i,
                {
                    proof {
                        assert(all.subrange(0, i + 1).subrange(0, i as int) =~= all.subrange(
                            0,
                            i as int,
                        ));
                    }
                    if fields[i].reports_rows() {
                        proof {
                            lemma_field_rows(all, i + 1);
                        }
                        return true;
                    }
                    i = i + 1;
                }
                assert(all.subrange(0, i as int) =~= all);
                false
            },
            _ => true,
        }
    }

    /// Number of logical rows this column carries.
    ///
    /// For composite variants the count is the OUTER row count, not
    /// the cumulative child-element count. A tuple has the rows of its first
    /// field that tells how many it has.
    #[must_use]
    pub fn row_count(&self) -> (n: usize)
        ensures
            n == row_count_of(self@),
        decreases self, 0nat,
    {
        match self {
            DecodedColumn::UInt8(v) => v.len(),
            DecodedColumn::UInt16(v) => v.len(),
            DecodedColumn::UInt32(v) => v.len(),
            DecodedColumn::UInt64(v) => v.len(),
            DecodedColumn::Int8(v) => v.len(),
            DecodedColumn::Int16(v) => v.len(),
            DecodedColumn::Int32(v) => v.len(),
            DecodedColumn::Int64(v) => v.len(),
            DecodedColumn::Int128(v) => v.len(),
            DecodedColumn::UInt128(v) => v.len(),
            DecodedColumn::Int256(v) => v.len(),
            DecodedColumn::UInt256(v) => v.len(),
            DecodedColumn::Float32(v) => v.len(),
            DecodedColumn::Float64(v) => v.len(),
            DecodedColumn::Decimal32 { values, .. } => values.len(),
            DecodedColumn::Decimal64 { values, .. } => values.len(),
            DecodedColumn::Decimal128 { values, .. } => values.len(),
            DecodedColumn::Decimal256 { values, .. } => values.len(),
            DecodedColumn::String(v) => v.len(),
            DecodedColumn::Json(v) => v.len(),
            DecodedColumn::FixedString { width, bytes } => {
                if *width == 0 {
                    0
                } else {
                    bytes.len() / *width
                }
            },
            DecodedColumn::Date(v) => v.len(),
            DecodedColumn::Date32(v) => v.len(),
            DecodedColumn::DateTime(v) => v.len(),
            DecodedColumn::DateTime64 { values, .. } => values.len(),
            DecodedColumn::Uuid(v) => v.len(),
            DecodedColumn::Ipv4(v) => v.len(),
            DecodedColumn::Ipv6(v) => v.len(),
            DecodedColumn::Nullable { mask, .. } => mask.len(),
            DecodedColumn::Array { offsets, .. } => offsets.len(),
            DecodedColumn::LowCardinality { indices, .. } => indices.row_count(),
            DecodedColumn::Tuple(fields) => {
                proof {
                    lemma_cols(*fields);
                }
                count_fields(fields)
            },
            DecodedColumn::Mapping { offsets, .. } => offsets.len(),
            // Unsupported columns surface as zero rows so callers that
            // ignore the variant don't loop over uninitialised state.
            DecodedColumn::Unsupported(_) => 0,
        }
    }
}

/// A decoded Native data block: ordered list of columns plus the
/// `(name, type)` schema the server announced.
///
/// The schema is copied per block so one cursor survives the mid-stream
/// schema renegotiation an INSERT-SELECT can emit.
#[derive(Debug)]
pub struct DecodedBlock {
    /// One decoded column per schema entry, in wire order.
    pub columns: Vec<DecodedColumn>,
    /// `(name, type)` per column, as the server announced them.
    pub schema: Vec<(String, String)>,
    /// Row count the Data packet header declared.
    pub num_rows: u64,
}

/// The mathematical value of a [`DecodedBlock`].
pub struct BlockView {
    pub columns: Seq<Col>,
    pub schema: Seq<(Seq<char>, Seq<char>)>,
    pub num_rows: u64,
}

impl View for DecodedBlock {
    type V = BlockView;

    open spec fn view(&self) -> BlockView {
        BlockView {
            columns: cols(self.columns@),
            schema: pair_texts(self.schema@),
            num_rows: self.num_rows,
        }
    }
}

/// The first place of `name` among the announced columns.
pub open spec fn schema_index(schema: Seq<(Seq<char>, Seq<char>)>, name: Seq<char>) -> Option<nat>
    decreases schema.len(),
{
    if schema.len() == 0 {
        None
    } else {
        match schema_index(schema.drop_last(), name) {
            Some(i) => Some(i),
            None => if schema.last().0 == name {
                Some((schema.len() - 1) as nat)
            } else {
                None
            },
        }
    }
}

proof fn lemma_schema_index(schema: Seq<(Seq<char>, Seq<char>)>, name: Seq<char>, k: int)
    requires
        0 <= k <= schema.len(),
        schema_index(schema.take(k), name) is Some,
    ensures
        schema_index(schema, name) == schema_index(schema.take(k), name),
    decreases schema.len() - k,
{
    if k < schema.len() {
        assert(schema.take(k + 1).drop_last() =~= schema.take(k));
        lemma_schema_index(schema, name, k + 1);
    } else {
        assert(schema.take(k) =~= schema);
    }
}

/// A lookup by name finds the first column announced under that name, and
/// nothing exactly where none is: the entry at the place found has the name,
/// and no entry before it has.
pub proof fn law_columns_are_found_by_name(schema: Seq<(Seq<char>, Seq<char>)>, name: Seq<char>)
    ensures
        match schema_index(schema, name) {
            Some(i) => {
                &&& i < schema.len()
                &&& schema[i as int].0 == name
                &&& forall|j: int| 0 <= j < i ==> (#[trigger] schema[j]).0 != name
            },
            None => forall|j: int| 0 <= j < schema.len() ==> (#[trigger] schema[j]).0 != name,
        },
    decreases schema.len(),
{
    if schema.len() > 0 {
        let before = schema.drop_last();
        law_columns_are_found_by_name(before, name);
        if let Some(i) = schema_index(before, name) {
            assert(before[i as int] == schema[i as int]);
            assert forall|j: int| 0 <= j < i implies (#[trigger] schema[j]).0 != name by {
                assert(before[j] == schema[j]);
            }
        } else {
            assert forall|j: int| 0 <= j < before.len() implies (#[trigger] schema[j]).0 != name by {
                assert(before[j] == schema[j]);
            }
        }
    }
}

/// The error of a column that the block does not declare.
pub open spec fn no_column(name: Seq<char>) -> ErrorView {
    ErrorView::SchemaMismatch("native: block declares no column '"@ + name + "'"@)
}

impl DecodedBlock {
    fn position(&self, name: &str) -> (out: Option<usize>)
        ensures
            match out {
                Some(i) => schema_index(self@.schema, name@) == Some(i as nat) && i
                    < self.schema@.len(),
                None => schema_index(self@.schema, name@) is None,
            },
    {
        let wanted = chars_of(name);
        let mut i: usize = 0;
        let ghost all = pair_texts(self.schema@);
        while i < self.schema.len()
            invariant
                i <= self.schema.len(),
                wanted@ == name@,
                all == pair_texts(self.schema@),
                schema_index(all.take(i as int), name@) is None,
            decreases self.schema.len() - i,
        {
            proof {
                assert(all.take(i + 1).drop_last() =~= all.take(i as int));
                assert(all.take(i + 1).last().0 == self.schema@[i as int].0@);
            }
            let here = chars_of(self.schema[i].0.as_str());
            if same_chars(here.as_slice(), wanted.as_slice()) {
                proof {
                    lemma_schema_index(all, name@, i + 1);
                }
                return Some(i);
            }
            i = i + 1;
        }
        assert(all.take(i as int) =~= all);
        None
    }

    /// The column the server announced under `name`. `None` for a column
    /// the block does not declare, and for the header block, which
    /// declares its columns and carries no values.
    #[must_use]
    pub fn column(&self, name: &str) -> (out: Option<&DecodedColumn>)
        ensures
            self@.num_rows == 0 ==> out is None,
            match schema_index(self@.schema, name@) {
                Some(i) if i < self@.columns.len() && self@.num_rows > 0 => match out {
                    Some(c) => c@ == self@.columns[i as int],
                    None => false,
                },
                _ => out is None,
            },
    {
        if self.num_rows == 0 {
            return None;
        }
        match self.position(name) {
            Some(i) => {
                if i < self.columns.len() {
                    Some(&self.columns[i])
                } else {
                    None
                }
            },
            None => None,
        }
    }

    /// Every value of column `name`, converted to `T`. The header block and
    /// the server's trailing empty block both yield an empty vector, so this
    /// flat-maps across a whole result set without filtering.
    ///
    /// # Errors
    ///
    /// [`Error::SchemaMismatch`] if a block that declares columns does not
    /// declare `name`, or if the column's wire type does not read as `T`.
    pub fn column_as<T: FromColumn>(&self, name: &str) -> (r: Result<Vec<T>, Error>)
        ensures
            converts(
                r,
                if self@.schema.len() == 0 {
                    Ok(seq![])
                } else {
                    match schema_index(self@.schema, name@) {
                        Some(i) => if i < self@.columns.len() {
                            T::convert(
                                self@.columns[i as int],
                                name@,
                                self@.schema[i as int].1,
                            )
                        } else {
                            Ok(seq![])
                        },
                        None => Err(no_column(name@)),
                    }
                },
            ),
    {
        // A result set ends with a block that declares nothing and carries
        // nothing.
        if self.schema.len() == 0 {
            let none: Vec<T> = Vec::new();
            assert(values_of(none@) =~= seq![]);
            return Ok(none);
        }
        match self.position(name) {
            Some(i) => {
                if i < self.columns.len() {
                    proof {
                        assert(self@.columns[i as int] == self.columns@[i as int]@);
                        assert(self@.schema[i as int].1 == self.schema@[i as int].1@);
                    }
                    T::from_column(&self.columns[i], name, self.schema[i].1.as_str())
                } else {
                    let none: Vec<T> = Vec::new();
                    assert(values_of(none@) =~= seq![]);
                    Ok(none)
                }
            },
            None => {
                let mut text = "native: block declares no column '".to_owned();
                text.append(name);
                text.append("'");
                Err(Error::SchemaMismatch(text))
            },
        }
    }
}

/// A value that a column can be read as.
pub trait ColumnValue: Sized {
    /// What a value stands for.
    type Value;

    /// What this value stands for.
    spec fn value(self) -> Self::Value;
}

/// The values of a list.
pub open spec fn values_of<T: ColumnValue>(v: Seq<T>) -> Seq<T::Value> {
    v.map_values(|x: T| x.value())
}

/// `r` is the outcome `s`.
pub open spec fn converts<T: ColumnValue>(
    r: Result<Vec<T>, Error>,
    s: Result<Seq<T::Value>, ErrorView>,
) -> bool {
    match r {
        Ok(v) => s == Ok::<Seq<T::Value>, ErrorView>(values_of(v@)),
        Err(e) => s == Err::<Seq<T::Value>, ErrorView>(e@),
    }
}

/// Typed read of one [`DecodedColumn`].
///
/// Implemented for every scalar backing the decoder produces, for
/// `Option<T>` wherever `T` has a route, and for `String` / `Vec<u8>`
/// (which also carry `JSON`, `Variant` and `Dynamic` document text).
/// Composites -- `Array`, `Map`, `Tuple`, `LowCardinality` -- have no
/// flat Rust shape, so they go through [`DecodedBlock::column`] and match
/// on the variant directly.
pub trait FromColumn: ColumnValue {
    /// What `from_column` makes of a column.
    spec fn convert(column: Col, name: Seq<char>, declared: Seq<char>) -> Result<
        Seq<Self::Value>,
        ErrorView,
    >;

    /// Convert every value in `column`. `name` and `declared` come from
    /// the block schema and appear in the mismatch error.
    ///
    /// # Errors
    ///
    /// [`Error::SchemaMismatch`] if `column` holds a different wire type,
    /// or [`Error::InvalidUtf8Encoding`] if a `String` column carries
    /// bytes that are not UTF-8.
    fn from_column(column: &DecodedColumn, name: &str, declared: &str) -> (r: Result<
        Vec<Self>,
        Error,
    >)
        ensures
            converts(r, Self::convert(column@, name@, declared@)),
    ;
}

/// The error of a column that holds another type.
pub open spec fn mismatch(name: Seq<char>, declared: Seq<char>, expected: Seq<char>) -> ErrorView {
    ErrorView::SchemaMismatch(
        "native: column '"@ + name + "' is "@ + declared + ", which does not read as "@ + expected,
    )
}

fn wrong_type(name: &str, declared: &str, expected: &str) -> (e: Error)
    ensures
        e@ == mismatch(name@, declared@, expected@),
{
    let mut text = "native: column '".to_owned();
    text.append(name);
    text.append("' is ");
    text.append(declared);
    text.append(", which does not read as ");
    text.append(expected);
    Error::SchemaMismatch(text)
}

impl ColumnValue for u8 {
    type Value = u8;

    open spec fn value(self) -> u8 {
        self
    }
}

impl FromColumn for u8 {
    open spec fn convert(column: Col, name: Seq<char>, declared: Seq<char>) -> Result<
        Seq<u8>,
        ErrorView,
    > {
        match column {
            Col::UInt8(v) => Ok(v),
            _ => Err(mismatch(name, declared, "UInt8"@)),
        }
    }

    fn from_column(column: &DecodedColumn, name: &str, declared: &str) -> (r: Result<
        Vec<u8>,
        Error,
    >) {
        match column {
            DecodedColumn::UInt8(v) => {
                let out = vstd::slice::slice_to_vec(v.as_slice());
                assert(values_of(out@) =~= v@);
                Ok(out)
            },
            _ => Err(wrong_type(name, declared, "UInt8")),
        }
    }
}

impl ColumnValue for u16 {
    type Value = u16;

    open spec fn value(self) -> u16 {
        self
    }
}

/// `Date` is days since the epoch on a `UInt16` backing.
impl FromColumn for u16 {
    open spec fn convert(column: Col, name: Seq<char>, declared: Seq<char>) -> Result<
        Seq<u16>,
        ErrorView,
    > {
        match column {
            Col::UInt16(v) => Ok(v),
            Col::Date(v) => Ok(v),
            _ => Err(mismatch(name, declared, "UInt16"@)),
        }
    }

    fn from_column(column: &DecodedColumn, name: &str, declared: &str) -> (r: Result<
        Vec<u16>,
        Error,
    >) {
        match column {
            DecodedColumn::UInt16(v)
            | DecodedColumn::Date(v) => {
                let out = vstd::slice::slice_to_vec(v.as_slice());
                assert(values_of(out@) =~= v@);
                Ok(out)
            },
            _ => Err(wrong_type(name, declared, "UInt16")),
        }
    }
}

impl ColumnValue for u32 {
    type Value = u32;

    open spec fn value(self) -> u32 {
        self
    }
}

/// `DateTime` (epoch seconds) and `IPv4` share the `UInt32` backing.
impl FromColumn for u32 {
    open spec fn convert(column: Col, name: Seq<char>, declared: Seq<char>) -> Result<
        Seq<u32>,
        ErrorView,
    > {
        match column {
            Col::UInt32(v) => Ok(v),
            Col::DateTime(v) => Ok(v),
            Col::Ipv4(v) => Ok(v),
            _ => Err(mismatch(name, declared, "UInt32"@)),
        }
    }

    fn from_column(column: &DecodedColumn, name: &str, declared: &str) -> (r: Result<
        Vec<u32>,
        Error,
    >) {
        match column {
            DecodedColumn::UInt32(v)
            | DecodedColumn::DateTime(v)
            | DecodedColumn::Ipv4(v) => {
                let out = vstd::slice::slice_to_vec(v.as_slice());
                assert(values_of(out@) =~= v@);
                Ok(out)
            },
            _ => Err(wrong_type(name, declared, "UInt32")),
        }
    }
}

impl ColumnValue for u64 {
    type Value = u64;

    open spec fn value(self) -> u64 {
        self
    }
}

impl FromColumn for u64 {
    open spec fn convert(column: Col, name: Seq<char>, declared: Seq<char>) -> Result<
        Seq<u64>,
        ErrorView,
    > {
        match column {
            Col::UInt64(v) => Ok(v),
            _ => Err(mismatch(name, declared, "UInt64"@)),
        }
    }

    fn from_column(column: &DecodedColumn, name: &str, declared: &str) -> (r: Result<
        Vec<u64>,
        Error,
    >) {
        match column {
            DecodedColumn::UInt64(v) => {
                let out = vstd::slice::slice_to_vec(v.as_slice());
                assert(values_of(out@) =~= v@);
                Ok(out)
            },
            _ => Err(wrong_type(name, declared, "UInt64")),
        }
    }
}

impl ColumnValue for u128 {
    type Value = u128;

    open spec fn value(self) -> u128 {
        self
    }
}

impl FromColumn for u128 {
    open spec fn convert(column: Col, name: Seq<char>, declared: Seq<char>) -> Result<
        Seq<u128>,
        ErrorView,
    > {
        match column {
            Col::UInt128(v) => Ok(v),
            _ => Err(mismatch(name, declared, "UInt128"@)),
        }
    }

    fn from_column(column: &DecodedColumn, name: &str, declared: &str) -> (r: Result<
        Vec<u128>,
        Error,
    >) {
        match column {
            DecodedColumn::UInt128(v) => {
                let out = vstd::slice::slice_to_vec(v.as_slice());
                assert(values_of(out@) =~= v@);
                Ok(out)
            },
            _ => Err(wrong_type(name, declared, "UInt128")),
        }
    }
}

impl ColumnValue for i8 {
    type Value = i8;

    open spec fn value(self) -> i8 {
        self
    }
}

impl FromColumn for i8 {
    open spec fn convert(column: Col, name: Seq<char>, declared: Seq<char>) -> Result<
        Seq<i8>,
        ErrorView,
    > {
        match column {
            Col::Int8(v) => Ok(v),
            _ => Err(mismatch(name, declared, "Int8"@)),
        }
    }

    fn from_column(column: &DecodedColumn, name: &str, declared: &str) -> (r: Result<
        Vec<i8>,
        Error,
    >) {
        match column {
            DecodedColumn::Int8(v) => {
                let out = vstd::slice::slice_to_vec(v.as_slice());
                assert(values_of(out@) =~= v@);
                Ok(out)
            },
            _ => Err(wrong_type(name, declared, "Int8")),
        }
    }
}

impl ColumnValue for i16 {
    type Value = i16;

    open spec fn value(self) -> i16 {
        self
    }
}

impl FromColumn for i16 {
    open spec fn convert(column: Col, name: Seq<char>, declared: Seq<char>) -> Result<
        Seq<i16>,
        ErrorView,
    > {
        match column {
            Col::Int16(v) => Ok(v),
            _ => Err(mismatch(name, declared, "Int16"@)),
        }
    }

    fn from_column(column: &DecodedColumn, name: &str, declared: &str) -> (r: Result<
        Vec<i16>,
        Error,
    >) {
        match column {
            DecodedColumn::Int16(v) => {
                let out = vstd::slice::slice_to_vec(v.as_slice());
                assert(values_of(out@) =~= v@);
                Ok(out)
            },
            _ => Err(wrong_type(name, declared, "Int16")),
        }
    }
}

impl ColumnValue for i32 {
    type Value = i32;

    open spec fn value(self) -> i32 {
        self
    }
}

/// `Date32` is signed days since the epoch; `Decimal32` its backing.
impl FromColumn for i32 {
    open spec fn convert(column: Col, name: Seq<char>, declared: Seq<char>) -> Result<
        Seq<i32>,
        ErrorView,
    > {
        match column {
            Col::Int32(v) => Ok(v),
            Col::Date32(v) => Ok(v),
            Col::Decimal32 { values: v, .. } => Ok(v),
            _ => Err(mismatch(name, declared, "Int32"@)),
        }
    }

    fn from_column(column: &DecodedColumn, name: &str, declared: &str) -> (r: Result<
        Vec<i32>,
        Error,
    >) {
        match column {
            DecodedColumn::Int32(v)
            | DecodedColumn::Date32(v)
            | DecodedColumn::Decimal32 { values: v, .. } => {
                let out = vstd::slice::slice_to_vec(v.as_slice());
                assert(values_of(out@) =~= v@);
                Ok(out)
            },
            _ => Err(wrong_type(name, declared, "Int32")),
        }
    }
}

impl ColumnValue for i64 {
    type Value = i64;

    open spec fn value(self) -> i64 {
        self
    }
}

/// `DateTime64` ticks and `Decimal64` backings are both `Int64`.
impl FromColumn for i64 {
    open spec fn convert(column: Col, name: Seq<char>, declared: Seq<char>) -> Result<
        Seq<i64>,
        ErrorView,
    > {
        match column {
            Col::Int64(v) => Ok(v),
            Col::DateTime64 { values: v, .. } => Ok(v),
            Col::Decimal64 { values: v, .. } => Ok(v),
            _ => Err(mismatch(name, declared, "Int64"@)),
        }
    }

    fn from_column(column: &DecodedColumn, name: &str, declared: &str) -> (r: Result<
        Vec<i64>,
        Error,
    >) {
        match column {
            DecodedColumn::Int64(v)
            | DecodedColumn::DateTime64 { values: v, .. }
            | DecodedColumn::Decimal64 { values: v, .. } => {
                let out = vstd::slice::slice_to_vec(v.as_slice());
                assert(values_of(out@) =~= v@);
                Ok(out)
            },
            _ => Err(wrong_type(name, declared, "Int64")),
        }
    }
}

impl ColumnValue for i128 {
    type Value = i128;

    open spec fn value(self) -> i128 {
        self
    }
}

impl FromColumn for i128 {
    open spec fn convert(column: Col, name: Seq<char>, declared: Seq<char>) -> Result<
        Seq<i128>,
        ErrorView,
    > {
        match column {
            Col::Int128(v) => Ok(v),
            Col::Decimal128 { values: v, .. } => Ok(v),
            _ => Err(mismatch(name, declared, "Int128"@)),
        }
    }

    fn from_column(column: &DecodedColumn, name: &str, declared: &str) -> (r: Result<
        Vec<i128>,
        Error,
    >) {
        match column {
            DecodedColumn::Int128(v)
            | DecodedColumn::Decimal128 { values: v, .. } => {
                let out = vstd::slice::slice_to_vec(v.as_slice());
                assert(values_of(out@) =~= v@);
                Ok(out)
            },
            _ => Err(wrong_type(name, declared, "Int128")),
        }
    }
}

/// The bits of a `Float32` value.
#[derive(Debug, Clone, Copy, PartialEq, Eq)]
pub struct SingleBits(pub u32);

impl ColumnValue for SingleBits {
    type Value = u32;

    open spec fn value(self) -> u32 {
        self.0
    }
}

impl FromColumn for SingleBits {
    open spec fn convert(column: Col, name: Seq<char>, declared: Seq<char>) -> Result<
        Seq<u32>,
        ErrorView,
    > {
        match column {
            Col::Float32(v) => Ok(v),
            _ => Err(mismatch(name, declared, "Float32"@)),
        }
    }

    fn from_column(column: &DecodedColumn, name: &str, declared: &str) -> (r: Result<
        Vec<SingleBits>,
        Error,
    >) {
        match column {
            DecodedColumn::Float32(v) => {
                let mut out: Vec<SingleBits> = Vec::new();
                let mut i: usize = 0;
                while i < v.len()
                    invariant
                        i <= v.len(),
                        out@.len() == i,
                        forall|k: int| 0 <= k < i ==> (#[trigger] out@[k]).0 == v@[k],
                    decreases v.len() - i,
                {
                    out.push(SingleBits(v[i]));
                    i = i + 1;
                }
                assert(values_of(out@) =~= v@);
                Ok(out)
            },
            _ => Err(wrong_type(name, declared, "Float32")),
        }
    }
}

/// The bits of a `Float64` value.
#[derive(Debug, Clone, Copy, PartialEq, Eq)]
pub struct DoubleBits(pub u64);

impl ColumnValue for DoubleBits {
    type Value = u64;

    open spec fn value(self) -> u64 {
        self.0
    }
}

impl FromColumn for DoubleBits {
    open spec fn convert(column: Col, name: Seq<char>, declared: Seq<char>) -> Result<
        Seq<u64>,
        ErrorView,
    > {
        match column {
            Col::Float64(v) => Ok(v),
            _ => Err(mismatch(name, declared, "Float64"@)),
        }
    }

    fn from_column(column: &DecodedColumn, name: &str, declared: &str) -> (r: Result<
        Vec<DoubleBits>,
        Error,
    >) {
        match column {
            DecodedColumn::Float64(v) => {
                let mut out: Vec<DoubleBits> = Vec::new();
                let mut i: usize = 0;
                while i < v.len()
                    invariant
                        i <= v.len(),
                        out@.len() == i,
                        forall|k: int| 0 <= k < i ==> (#[trigger] out@[k]).0 == v@[k],
                    decreases v.len() - i,
                {
                    out.push(DoubleBits(v[i]));
                    i = i + 1;
                }
                assert(values_of(out@) =~= v@);
                Ok(out)
            },
            _ => Err(wrong_type(name, declared, "Float64")),
        }
    }
}

impl ColumnValue for [u8; 32] {
    type Value = Seq<u8>;

    open spec fn value(self) -> Seq<u8> {
        self@
    }
}

/// 256-bit values have no native Rust type; the raw little-endian
/// blocks are handed back unchanged.
impl FromColumn for [u8; 32] {
    open spec fn convert(column: Col, name: Seq<char>, declared: Seq<char>) -> Result<
        Seq<Seq<u8>>,
        ErrorView,
    > {
        match column {
            Col::Int256(v) => Ok(v),
            Col::UInt256(v) => Ok(v),
            Col::Decimal256 { values: v, .. } => Ok(v),
            _ => Err(mismatch(name, declared, "a 256-bit column"@)),
        }
    }

    fn from_column(column: &DecodedColumn, name: &str, declared: &str) -> (r: Result<
        Vec<[u8; 32]>,
        Error,
    >) {
        match column {
            DecodedColumn::Int256(v)
            | DecodedColumn::UInt256(v)
            | DecodedColumn::Decimal256 { values: v, .. } => {
                let out = vstd::slice::slice_to_vec(v.as_slice());
                assert(values_of(out@) =~= blocks32(v@));
                Ok(out)
            },
            _ => Err(wrong_type(name, declared, "a 256-bit column")),
        }
    }
}

impl ColumnValue for [u8; 16] {
    type Value = Seq<u8>;

    open spec fn value(self) -> Seq<u8> {
        self@
    }
}

/// `UUID` and `IPv6` are both 16 raw wire bytes.
impl FromColumn for [u8; 16] {
    open spec fn convert(column: Col, name: Seq<char>, declared: Seq<char>) -> Result<
        Seq<Seq<u8>>,
        ErrorView,
    > {
        match column {
            Col::Uuid(v) => Ok(v),
            Col::Ipv6(v) => Ok(v),
            _ => Err(mismatch(name, declared, "a 16-byte column"@)),
        }
    }

    fn from_column(column: &DecodedColumn, name: &str, declared: &str) -> (r: Result<
        Vec<[u8; 16]>,
        Error,
    >) {
        match column {
            DecodedColumn::Uuid(v)
            | DecodedColumn::Ipv6(v) => {
                let out = vstd::slice::slice_to_vec(v.as_slice());
                assert(values_of(out@) =~= blocks16(v@));
                Ok(out)
            },
            _ => Err(wrong_type(name, declared, "a 16-byte column")),
        }
    }
}

impl ColumnValue for bool {
    type Value = bool;

    open spec fn value(self) -> bool {
        self
    }
}

/// `Bool` is `UInt8` on the wire; any non-zero byte is true.
impl FromColumn for bool {
    open spec fn convert(column: Col, name: Seq<char>, declared: Seq<char>) -> Result<
        Seq<bool>,
        ErrorView,
    > {
        match column {
            Col::UInt8(v) => Ok(v.map_values(|b: u8| b != 0)),
            _ => Err(mismatch(name, declared, "Bool"@)),
        }
    }

    fn from_column(column: &DecodedColumn, name: &str, declared: &str) -> (r: Result<
        Vec<bool>,
        Error,
    >) {
        match column {
            DecodedColumn::UInt8(v) => {
                let mut out: Vec<bool> = Vec::new();
                let mut i: usize = 0;
                while i < v.len()
                    invariant
                        i <= v.len(),
                        out@.len() == i,
                        forall|k: int| 0 <= k < i ==> #[trigger] out@[k] == (v@[k] != 0),
                    decreases v.len() - i,
                {
                    out.push(v[i] != 0);
                    i = i + 1;
                }
                assert(values_of(out@) =~= v@.map_values(|b: u8| b != 0));
                Ok(out)
            },
            _ => Err(wrong_type(name, declared, "Bool")),
        }
    }
}

impl ColumnValue for Vec<u8> {
    type Value = Seq<u8>;

    open spec fn value(self) -> Seq<u8> {
        self@
    }
}

/// Raw `String` bytes -- `ClickHouse` does not guarantee UTF-8.
impl FromColumn for Vec<u8> {
    open spec fn convert(column: Col, name: Seq<char>, declared: Seq<char>) -> Result<
        Seq<Seq<u8>>,
        ErrorView,
    > {
        match column {
            Col::String(v) => Ok(v),
            Col::Json(v) => Ok(v),
            _ => Err(mismatch(name, declared, "String"@)),
        }
    }

    fn from_column(column: &DecodedColumn, name: &str, declared: &str) -> (r: Result<
        Vec<Vec<u8>>,
        Error,
    >) {
        match column {
            DecodedColumn::String(v)
            | DecodedColumn::Json(v) => {
                let mut out: Vec<Vec<u8>> = Vec::new();
                let mut i: usize = 0;
                while i < v.len()
                    invariant
                        i <= v.len(),
                        out@.len() == i,
                        forall|k: int| 0 <= k < i ==> (#[trigger] out@[k])@ == v@[k]@,
                    decreases v.len() - i,
                {
                    out.push(vstd::slice::slice_to_vec(v[i].as_slice()));
                    i = i + 1;
                }
                assert(values_of(out@) =~= row_bytes(v@));
                Ok(out)
            },
            _ => Err(wrong_type(name, declared, "String")),
        }
    }
}

/// The text of a cell, as a function of the cell.
pub open spec fn cell_text() -> spec_fn(Seq<u8>) -> Result<Seq<char>, ErrorView> {
    |c: Seq<u8>|
        if vstd::utf8::valid_utf8(c) {
            Ok(vstd::utf8::decode_utf8(c))
        } else {
            Err(ErrorView::InvalidUtf8Encoding(utf8_error_text(c)))
        }
}

impl ColumnValue for String {
    type Value = Seq<char>;

    open spec fn value(self) -> Seq<char> {
        self@
    }
}

/// A `JSON`, `Variant` or `Dynamic` column reads as its per-row document text.
impl FromColumn for String {
    open spec fn convert(column: Col, name: Seq<char>, declared: Seq<char>) -> Result<
        Seq<Seq<char>>,
        ErrorView,
    > {
        match column {
            Col::String(v) => each(v, cell_text()),
            Col::Json(v) => each(v, cell_text()),
            _ => Err(mismatch(name, declared, "String"@)),
        }
    }

    fn from_column(column: &DecodedColumn, name: &str, declared: &str) -> (r: Result<
        Vec<String>,
        Error,
    >) {
        match column {
            DecodedColumn::String(v)
            | DecodedColumn::Json(v) => {
                let mut out: Vec<String> = Vec::new();
                let mut i: usize = 0;
                let ghost cells = row_bytes(v@);
                let ghost f = cell_text();
                assert(values_of(out@) =~= seq![]);
                while i < v.len()
                    invariant
                        i <= v.len(),
                        cells == row_bytes(v@),
                        f == cell_text(),
                        each(cells.take(i as int), f) == Ok::<Seq<Seq<char>>, ErrorView>(
                            values_of(out@),
                        ),
                        column@ == Col::String(cells) || column@ == Col::Json(cells),
                    decreases v.len() - i,
                {
                    proof {
                        assert(cells.take(i + 1).drop_last() =~= cells.take(i as int));
                        assert(cells.take(i + 1).last() == v@[i as int]@);
                    }
                    match utf8_text(vstd::slice::slice_to_vec(v[i].as_slice())) {
                        Ok(s) => {
                            proof {
                                assert(values_of(out@.push(s)) =~= values_of(out@).push(s@));
                            }
                            out.push(s);
                        },
                        Err(t) => {
                            proof {
                                lemma_each_err(cells, f, i + 1);
                            }
                            return Err(Error::InvalidUtf8Encoding(t));
                        },
                    }
                    i = i + 1;
                }
                assert(cells.take(i as int) =~= cells);
                Ok(out)
            },
            _ => Err(wrong_type(name, declared, "String")),
        }
    }
}

/// The values that the mask leaves: a value per row where there is one.
pub open spec fn masked<V>(mask: Seq<u8>, values: Seq<V>) -> Seq<Option<V>> {
    Seq::new(
        if mask.len() <= values.len() {
            mask.len()
        } else {
            values.len()
        },
        |i: int|
            if mask[i] == 0 {
                Some(values[i])
            } else {
                None
            },
    )
}

impl<T: ColumnValue> ColumnValue for Option<T> {
    type Value = Option<T::Value>;

    open spec fn value(self) -> Option<T::Value> {
        match self {
            Some(v) => Some(v.value()),
            None => None,
        }
    }
}

/// Any route that works on `T` works on `Nullable(T)`.
///
/// The Native wire carries a value for every row, null slots included, so
/// the child converts whole and the mask then selects.
impl<T: FromColumn> FromColumn for Option<T> {
    open spec fn convert(column: Col, name: Seq<char>, declared: Seq<char>) -> Result<
        Seq<Option<T::Value>>,
        ErrorView,
    > {
        match column {
            Col::Nullable { mask, child } => match T::convert(*child, name, declared) {
                Ok(values) => Ok(masked(mask, values)),
                Err(e) => Err(e),
            },
            _ => Err(mismatch(name, declared, "a Nullable column"@)),
        }
    }

    fn from_column(column: &DecodedColumn, name: &str, declared: &str) -> (r: Result<
        Vec<Option<T>>,
        Error,
    >) {
        match column {
            DecodedColumn::Nullable { mask, child } => {
                let values: Vec<T> = T::from_column(child, name, declared)?;
                let ghost all = values_of(values@);
                let n: usize = values.len();
                let mut out: Vec<Option<T>> = Vec::new();
                let mut i: usize = 0;
                for v in it: values
                    invariant
                        i == it.index(),
                        it.seq() == values@,
                        all == values_of(values@),
                        n == values@.len(),
                        out@.len() == if i <= mask@.len() {
                            i as nat
                        } else {
                            mask@.len()
                        },
                        values_of(out@) =~= masked(mask@, all).take(out@.len() as int),
                {
                    if i < mask.len() {
                        let picked: Option<T> = if mask[i] == 0 {
                            Some(v)
                        } else {
                            None
                        };
                        proof {
                            assert(values_of(out@.push(picked)) =~= values_of(out@).push(
                                picked.value(),
                            ));
                        }
                        out.push(picked);
                    }
                    i = i + 1;
                }
                assert(masked(mask@, all).take(out@.len() as int) =~= masked(mask@, all));
                Ok(out)
            },
            _ => Err(wrong_type(name, declared, "a Nullable column")),
        }
    }
}

} // verus!
