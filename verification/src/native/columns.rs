//! Native column types and the parser of their names.

use vstd::prelude::*;
use vstd::string::*;

use crate::text::{
    begins_with, chars_of, has_prefix, lemma_trim_len, parse_unsigned, parse_within, spells,
    text_of, trim, trimmed, Strip,
};

verus! {

/// Supported `ClickHouse` column types for native transport.
///
/// `#[non_exhaustive]` so a new server type stays an additive change for code
/// that matches on this enum.
#[derive(Debug)]
#[non_exhaustive]
pub enum ColumnType {
    /// One raw byte per row.
    UInt8,
    /// Two raw little-endian bytes per row.
    UInt16,
    /// Four raw little-endian bytes per row.
    UInt32,
    /// Eight raw little-endian bytes per row.
    UInt64,
    /// One raw byte per row, read signed.
    Int8,
    /// Two raw little-endian bytes per row, read signed.
    Int16,
    /// Four raw little-endian bytes per row, read signed.
    Int32,
    /// Eight raw little-endian bytes per row, read signed.
    Int64,
    /// Sixteen raw little-endian bytes per row, read signed.
    Int128,
    /// Sixteen raw little-endian bytes per row.
    UInt128,
    /// Thirty-two raw little-endian bytes per row, read signed.
    Int256,
    /// Thirty-two raw little-endian bytes per row.
    UInt256,
    /// IEEE-754 binary32, four little-endian bytes per row.
    Float32,
    /// IEEE-754 binary64, eight little-endian bytes per row.
    Float64,
    /// Brain float, the top two bytes of a binary32 bit pattern.
    BFloat16,
    /// A raw little-endian backing integer whose width the variant selects;
    /// `precision` and `scale` come from the type name and give the value as
    /// `backing / 10^scale`.
    Decimal32 {
        /// Total significant digits.
        precision: u8,
        /// Fractional digits.
        scale: u8,
    },
    /// [`ColumnType::Decimal32`] over an `Int64` backing integer.
    Decimal64 {
        /// Total significant digits.
        precision: u8,
        /// Fractional digits.
        scale: u8,
    },
    /// [`ColumnType::Decimal32`] over an `Int128` backing integer.
    Decimal128 {
        /// Total significant digits.
        precision: u8,
        /// Fractional digits.
        scale: u8,
    },
    /// [`ColumnType::Decimal32`] over a 256-bit backing integer.
    Decimal256 {
        /// Total significant digits.
        precision: u8,
        /// Fractional digits.
        scale: u8,
    },
    /// Varuint length then that many bytes, per row.
    String,
    /// Exactly N raw bytes per row, with no length prefix.
    FixedString(usize),
    /// Sixteen bytes: two little-endian `u64` halves, most significant first.
    Uuid,
    /// A four-byte little-endian `UInt32`.
    IPv4,
    /// Sixteen bytes in network order.
    IPv6,
    /// Unsigned days since the Unix epoch, two little-endian bytes.
    Date,
    /// Signed days since the Unix epoch, four little-endian bytes.
    Date32,
    /// Unsigned seconds since the Unix epoch, four little-endian bytes.
    DateTime,
    /// `Int64` ticks at a sub-second `precision` of 0..=9, with an optional
    /// IANA `timezone`; both come from the type name, not the wire.
    DateTime64 {
        /// Sub-second digits, 0..=9.
        precision: u8,
        /// IANA timezone name from the type arguments.
        timezone: Option<String>,
    },
    /// Seconds since midnight, as a `UInt32`.
    Time,
    /// Ticks since midnight at the declared precision, as an `Int64`.
    Time64,
    /// One null-flag byte per row, then a full-width value column.
    Nullable(Box<ColumnType>),
    /// A per-block dictionary and per-row indices into it.
    LowCardinality(Box<ColumnType>),
    /// Wire-compatible with `UInt8`.
    Enum8,
    /// Wire-compatible with `UInt16`.
    Enum16,
    /// `SimpleAggregateFunction(func, T)`, wire-compatible with the inner `T`.
    SimpleAggregateFunction(Box<ColumnType>),
    /// `n` cumulative `u64` offsets, then all elements packed as a `T` column.
    Array(Box<ColumnType>),
    /// Each field stored as its own columnar block, in field order.
    Tuple(Vec<ColumnType>),
    /// `n` cumulative `u64` offsets, then the key column, then the value column.
    Mapping(Box<ColumnType>, Box<ColumnType>),
    /// Legacy `Object('json')`, a length-prefixed String on the wire.
    Json,
    /// A pair of `Float64` stored as two columns, x values then y values.
    Point,
    /// Variant(T1, T2, ...) -- discriminated union; u64 version, then `u8[n]`
    /// discriminators, then the sub-columns in definition order.
    Variant(Vec<ColumnType>),
    /// `JSON` -- u64 version (1 = one document string per row, 2 and 3 the
    /// path-based object formats).
    NewJson,
    /// Standalone `Dynamic` -- u64 version (1 deprecated, 2 intermediate,
    /// 3 flat), then discriminators and per-type column data.
    Dynamic,
}

/// The mathematical value of a [`ColumnType`].
pub enum Ty {
    UInt8,
    UInt16,
    UInt32,
    UInt64,
    Int8,
    Int16,
    Int32,
    Int64,
    Int128,
    UInt128,
    Int256,
    UInt256,
    Float32,
    Float64,
    BFloat16,
    Decimal32 { precision: u8, scale: u8 },
    Decimal64 { precision: u8, scale: u8 },
    Decimal128 { precision: u8, scale: u8 },
    Decimal256 { precision: u8, scale: u8 },
    String,
    FixedString(usize),
    Uuid,
    IPv4,
    IPv6,
    Date,
    Date32,
    DateTime,
    DateTime64 { precision: u8, timezone: Option<Seq<char>> },
    Time,
    Time64,
    Nullable(Box<Ty>),
    LowCardinality(Box<Ty>),
    Enum8,
    Enum16,
    SimpleAggregateFunction(Box<Ty>),
    Array(Box<Ty>),
    Tuple(Seq<Ty>),
    Mapping(Box<Ty>, Box<Ty>),
    Json,
    Point,
    Variant(Seq<Ty>),
    NewJson,
    Dynamic,
}

impl ColumnType {
    /// The mathematical value of the type.
    pub open spec fn ty(self) -> Ty
        decreases self,
    {
        match self {
            ColumnType::UInt8 => Ty::UInt8,
            ColumnType::UInt16 => Ty::UInt16,
            ColumnType::UInt32 => Ty::UInt32,
            ColumnType::UInt64 => Ty::UInt64,
            ColumnType::Int8 => Ty::Int8,
            ColumnType::Int16 => Ty::Int16,
            ColumnType::Int32 => Ty::Int32,
            ColumnType::Int64 => Ty::Int64,
            ColumnType::Int128 => Ty::Int128,
            ColumnType::UInt128 => Ty::UInt128,
            ColumnType::Int256 => Ty::Int256,
            ColumnType::UInt256 => Ty::UInt256,
            ColumnType::Float32 => Ty::Float32,
            ColumnType::Float64 => Ty::Float64,
            ColumnType::BFloat16 => Ty::BFloat16,
            ColumnType::Decimal32 { precision, scale } => Ty::Decimal32 { precision, scale },
            ColumnType::Decimal64 { precision, scale } => Ty::Decimal64 { precision, scale },
            ColumnType::Decimal128 { precision, scale } => Ty::Decimal128 { precision, scale },
            ColumnType::Decimal256 { precision, scale } => Ty::Decimal256 { precision, scale },
            ColumnType::String => Ty::String,
            ColumnType::FixedString(n) => Ty::FixedString(n),
            ColumnType::Uuid => Ty::Uuid,
            ColumnType::IPv4 => Ty::IPv4,
            ColumnType::IPv6 => Ty::IPv6,
            ColumnType::Date => Ty::Date,
            ColumnType::Date32 => Ty::Date32,
            ColumnType::DateTime => Ty::DateTime,
            ColumnType::DateTime64 { precision, timezone } => Ty::DateTime64 {
                precision,
                timezone: match timezone {
                    Some(z) => Some(z@),
                    None => None,
                },
            },
            ColumnType::Time => Ty::Time,
            ColumnType::Time64 => Ty::Time64,
            ColumnType::Nullable(t) => Ty::Nullable(Box::new(t.ty())),
            ColumnType::LowCardinality(t) => Ty::LowCardinality(Box::new(t.ty())),
            ColumnType::Enum8 => Ty::Enum8,
            ColumnType::Enum16 => Ty::Enum16,
            ColumnType::SimpleAggregateFunction(t) => Ty::SimpleAggregateFunction(
                Box::new(t.ty()),
            ),
            ColumnType::Array(t) => Ty::Array(Box::new(t.ty())),
            ColumnType::Tuple(ts) => Ty::Tuple(
                Seq::new(
                    ts@.len(),
                    |i: int|
                        if 0 <= i < ts@.len() {
                            ts@[i].ty()
                        } else {
                            Ty::UInt8
                        },
                ),
            ),
            ColumnType::Mapping(k, v) => Ty::Mapping(Box::new(k.ty()), Box::new(v.ty())),
            ColumnType::Json => Ty::Json,
            ColumnType::Point => Ty::Point,
            ColumnType::Variant(ts) => Ty::Variant(
                Seq::new(
                    ts@.len(),
                    |i: int|
                        if 0 <= i < ts@.len() {
                            ts@[i].ty()
                        } else {
                            Ty::UInt8
                        },
                ),
            ),
            ColumnType::NewJson => Ty::NewJson,
            ColumnType::Dynamic => Ty::Dynamic,
        }
    }
}

impl View for ColumnType {
    type V = Ty;

    open spec fn view(&self) -> Ty {
        self.ty()
    }
}

/// The mathematical values of a list of types.
pub open spec fn tys(ts: Seq<ColumnType>) -> Seq<Ty> {
    ts.map_values(|t: ColumnType| t.ty())
}

pub proof fn lemma_tys_push(ts: Seq<ColumnType>, t: ColumnType)
    ensures
        tys(ts.push(t)) == tys(ts).push(t@),
{
    assert(tys(ts.push(t)) =~= tys(ts).push(t@));
}

/// A tuple or variant type is made of the types of its list.
pub proof fn lemma_tys(ts: Vec<ColumnType>)
    ensures
        ColumnType::Tuple(ts)@ == Ty::Tuple(tys(ts@)),
        ColumnType::Variant(ts)@ == Ty::Variant(tys(ts@)),
{
    assert(ColumnType::Tuple(ts).ty()->Tuple_0 =~= tys(ts@));
    assert(ColumnType::Variant(ts).ty()->Variant_0 =~= tys(ts@));
}

/// Upper bound on type-name nesting [`ColumnType::parse`] accepts. The parser
/// recurses once per wrapper, and `type_name` is server-controlled and capped
/// only at `MAX_STRING_SIZE`, so a deep name would otherwise blow the stack.
pub const MAX_TYPE_PARSE_DEPTH: usize = 32;

/// The parenthesis depth behind `s`, never below zero.
pub open spec fn depth_after(s: Seq<char>) -> nat
    decreases s.len(),
{
    if s.len() == 0 {
        0
    } else {
        let d = depth_after(s.drop_last());
        if s.last() == '(' {
            d + 1
        } else if s.last() == ')' && d > 0 {
            (d - 1) as nat
        } else {
            d
        }
    }
}

/// The greatest parenthesis depth within `s`.
pub open spec fn max_depth(s: Seq<char>) -> nat
    decreases s.len(),
{
    if s.len() == 0 {
        0
    } else if depth_after(s) > max_depth(s.drop_last()) {
        depth_after(s)
    } else {
        max_depth(s.drop_last())
    }
}

proof fn lemma_depth_bound(s: Seq<char>)
    ensures
        depth_after(s) <= s.len(),
    decreases s.len(),
{
    if s.len() > 0 {
        lemma_depth_bound(s.drop_last());
    }
}

/// Maximum parenthesis nesting depth in `s`.
fn paren_depth(s: &[char]) -> (max: usize)
    ensures
        max == max_depth(s@),
{
    let mut depth: usize = 0;
    let mut max: usize = 0;
    let mut i: usize = 0;
    while i < s.len()
        invariant
            i <= s.len(),
            depth == depth_after(s@.take(i as int)),
            max == max_depth(s@.take(i as int)),
        decreases s.len() - i,
    {
        proof {
            lemma_depth_bound(s@.take(i as int));
            let t = s@.take(i + 1);
            assert(t.drop_last() =~= s@.take(i as int));
            assert(t.last() == s@[i as int]);
        }
        if s[i] == '(' {
            depth = depth + 1;
            if depth > max {
                max = depth;
            }
        } else if s[i] == ')' && depth > 0 {
            depth = depth - 1;
        }
        i = i + 1;
        proof {
            lemma_max_depth_covers(s@.take(i - 1));
        }
    }
    assert(s@.take(i as int) =~= s@);
    max
}

proof fn lemma_max_depth_covers(s: Seq<char>)
    ensures
        depth_after(s) <= max_depth(s),
{
}

/// Maximum parenthesis nesting depth in `s`.
pub fn max_paren_depth(s: &str) -> (max: usize)
    ensures
        max == max_depth(s@),
{
    let chars = chars_of(s);
    paren_depth(chars.as_slice())
}

/// Whether the list `s` is cut at `i`: a comma outside all parentheses.
pub open spec fn cut_at(s: Seq<char>, i: int) -> bool {
    s[i] == ',' && depth_after(s.take(i)) == 0
}

/// Where the piece that holds position `n` of the list `s` starts.
pub open spec fn piece_start(s: Seq<char>, n: nat) -> nat
    decreases n,
{
    if n == 0 {
        0
    } else if cut_at(s, n - 1) {
        n
    } else {
        piece_start(s, (n - 1) as nat)
    }
}

/// The trimmed pieces that end within the first `n` characters of the list `s`.
pub open spec fn pieces(s: Seq<char>, n: nat) -> Seq<Seq<char>>
    decreases n,
{
    if n == 0 {
        seq![]
    } else {
        let before = pieces(s, (n - 1) as nat);
        if cut_at(s, n - 1) {
            before.push(
                trim(s.subrange(piece_start(s, (n - 1) as nat) as int, n - 1), Strip::White),
            )
        } else {
            before
        }
    }
}

/// The trimmed pieces of the comma-separated list `s`; an empty last piece is
/// none.
pub open spec fn type_args(s: Seq<char>) -> Seq<Seq<char>> {
    let tail = trim(s.skip(piece_start(s, s.len()) as int), Strip::White);
    if tail.len() > 0 {
        pieces(s, s.len()).push(tail)
    } else {
        pieces(s, s.len())
    }
}

/// The first cut of the list `s` at or behind `from`.
pub open spec fn first_cut(s: Seq<char>, from: nat) -> Option<nat>
    decreases s.len() - from,
{
    if from >= s.len() {
        None
    } else if cut_at(s, from as int) {
        Some(from)
    } else {
        first_cut(s, from + 1)
    }
}

proof fn lemma_piece_start(s: Seq<char>, n: nat)
    ensures
        piece_start(s, n) <= n,
    decreases n,
{
    if n > 0 {
        lemma_piece_start(s, (n - 1) as nat);
    }
}

proof fn lemma_pieces_len(s: Seq<char>, n: nat)
    requires
        n <= s.len(),
    ensures
        forall|i: int| 0 <= i < pieces(s, n).len() ==> (#[trigger] pieces(s, n)[i]).len() <= s.len(),
    decreases n,
{
    if n > 0 {
        let m = (n - 1) as nat;
        lemma_pieces_len(s, m);
        lemma_piece_start(s, m);
        let piece = s.subrange(piece_start(s, m) as int, m as int);
        lemma_trim_len(piece, Strip::White);
        assert forall|i: int| 0 <= i < pieces(s, n).len() implies (
        #[trigger] pieces(s, n)[i]).len() <= s.len() by {
            if i < pieces(s, m).len() {
                assert(pieces(s, n)[i] == pieces(s, m)[i]);
            }
        }
    }
}

pub proof fn lemma_type_args_len(s: Seq<char>)
    ensures
        forall|i: int|
            0 <= i < type_args(s).len() ==> (#[trigger] type_args(s)[i]).len() <= s.len(),
{
    lemma_pieces_len(s, s.len());
    lemma_piece_start(s, s.len());
    lemma_trim_len(s.skip(piece_start(s, s.len()) as int), Strip::White);
}

/// The texts of a list of slices.
pub open spec fn texts(v: Seq<&[char]>) -> Seq<Seq<char>> {
    v.map_values(|t: &[char]| t@)
}

/// Split a comma-separated type argument list respecting parentheses depth.
///
/// `"String, UInt64"` -> `["String", "UInt64"]`
/// `"Array(String), UInt64"` -> `["Array(String)", "UInt64"]`
pub(crate) fn split_type_args<'a>(s: &'a [char]) -> (out: Vec<&'a [char]>)
    ensures
        texts(out@) == type_args(s@),
{
    let mut out: Vec<&'a [char]> = Vec::new();
    let mut depth: usize = 0;
    let mut start: usize = 0;
    let mut i: usize = 0;
    while i < s.len()
        invariant
            i <= s.len(),
            start <= i,
            depth == depth_after(s@.take(i as int)),
            start == piece_start(s@, i as nat),
            texts(out@) =~= pieces(s@, i as nat),
        decreases s.len() - i,
    {
        proof {
            lemma_depth_bound(s@.take(i as int));
            let t = s@.take(i + 1);
            assert(t.drop_last() =~= s@.take(i as int));
            assert(t.last() == s@[i as int]);
        }
        let c = s[i];
        let ghost before = out@;
        if c == '(' {
            depth = depth + 1;
        } else if c == ')' {
            if depth > 0 {
                depth = depth - 1;
            }
        } else if c == ',' && depth == 0 {
            out.push(trimmed(vstd::slice::slice_subrange(s, start, i), Strip::White));
            proof {
                assert(texts(out@) =~= texts(before).push(out@.last()@));
            }
            start = i + 1;
        }
        i = i + 1;
    }
    proof {
        assert(s@.subrange(start as int, s@.len() as int) =~= s@.skip(start as int));
    }
    let tail = trimmed(vstd::slice::slice_subrange(s, start, s.len()), Strip::White);
    let ghost before = out@;
    if tail.len() > 0 {
        out.push(tail);
        proof {
            assert(texts(out@) =~= texts(before).push(tail@));
        }
    }
    out
}

/// Find the offset of the first ',' at parentheses depth 0.
fn find_first_comma_at_depth0(s: &[char]) -> (out: Option<usize>)
    ensures
        match out {
            Some(i) => i < s@.len() && first_cut(s@, 0) == Some(i as nat),
            None => first_cut(s@, 0) is None,
        },
{
    let mut depth: usize = 0;
    let mut i: usize = 0;
    while i < s.len()
        invariant
            i <= s.len(),
            depth == depth_after(s@.take(i as int)),
            first_cut(s@, 0) == first_cut(s@, i as nat),
        decreases s.len() - i,
    {
        proof {
            lemma_depth_bound(s@.take(i as int));
            let t = s@.take(i + 1);
            assert(t.drop_last() =~= s@.take(i as int));
            assert(t.last() == s@[i as int]);
        }
        let c = s[i];
        if c == '(' {
            depth = depth + 1;
        } else if c == ')' {
            if depth > 0 {
                depth = depth - 1;
            }
        } else if c == ',' && depth == 0 {
            return Some(i);
        }
        i = i + 1;
    }
    None
}

/// What stands between `name(` at the front of `s` and `)` at its end.
pub open spec fn outer(s: Seq<char>, name: Seq<char>) -> Option<Seq<char>> {
    if has_prefix(s, name) && s.len() >= name.len() + 2 && s[name.len() as int] == '('
        && s.last() == ')' {
        Some(s.subrange((name.len() + 1) as int, s.len() - 1))
    } else {
        None
    }
}

/// Strip a `TypeName(` prefix and its `)` suffix, returning the contents.
pub(crate) fn strip_outer<'a>(s: &'a [char], name: &str) -> (out: Option<&'a [char]>)
    ensures
        match out {
            Some(inner) => outer(s@, name@) == Some(inner@) && inner@.len() + 2 <= s@.len(),
            None => outer(s@, name@) is None,
        },
{
    if !begins_with(s, name) {
        return None;
    }
    let n: usize = chars_of(name).len();
    if s.len() - n < 2 || s[n] != '(' || s[s.len() - 1] != ')' {
        return None;
    }
    Some(vstd::slice::slice_subrange(s, n + 1, s.len() - 1))
}

impl ColumnType {
    /// A type of the same value.
    fn copied(&self) -> (out: ColumnType)
        ensures
            out@ == self@,
        decreases self,
    {
        match self {
            ColumnType::UInt8 => ColumnType::UInt8,
            ColumnType::UInt16 => ColumnType::UInt16,
            ColumnType::UInt32 => ColumnType::UInt32,
            ColumnType::UInt64 => ColumnType::UInt64,
            ColumnType::Int8 => ColumnType::Int8,
            ColumnType::Int16 => ColumnType::Int16,
            ColumnType::Int32 => ColumnType::Int32,
            ColumnType::Int64 => ColumnType::Int64,
            ColumnType::Int128 => ColumnType::Int128,
            ColumnType::UInt128 => ColumnType::UInt128,
            ColumnType::Int256 => ColumnType::Int256,
            ColumnType::UInt256 => ColumnType::UInt256,
            ColumnType::Float32 => ColumnType::Float32,
            ColumnType::Float64 => ColumnType::Float64,
            ColumnType::BFloat16 => ColumnType::BFloat16,
            ColumnType::Decimal32 { precision, scale } => ColumnType::Decimal32 {
                precision: *precision,
                scale: *scale,
            },
            ColumnType::Decimal64 { precision, scale } => ColumnType::Decimal64 {
                precision: *precision,
                scale: *scale,
            },
            ColumnType::Decimal128 { precision, scale } => ColumnType::Decimal128 {
                precision: *precision,
                scale: *scale,
            },
            ColumnType::Decimal256 { precision, scale } => ColumnType::Decimal256 {
                precision: *precision,
                scale: *scale,
            },
            ColumnType::String => ColumnType::String,
            ColumnType::FixedString(n) => ColumnType::FixedString(*n),
            ColumnType::Uuid => ColumnType::Uuid,
            ColumnType::IPv4 => ColumnType::IPv4,
            ColumnType::IPv6 => ColumnType::IPv6,
            ColumnType::Date => ColumnType::Date,
            ColumnType::Date32 => ColumnType::Date32,
            ColumnType::DateTime => ColumnType::DateTime,
            ColumnType::DateTime64 { precision, timezone } => ColumnType::DateTime64 {
                precision: *precision,
                timezone: match timezone {
                    Some(z) => Some(z.clone()),
                    None => None,
                },
            },
            ColumnType::Time => ColumnType::Time,
            ColumnType::Time64 => ColumnType::Time64,
            ColumnType::Nullable(t) => ColumnType::Nullable(Box::new(t.copied())),
            ColumnType::LowCardinality(t) => ColumnType::LowCardinality(Box::new(t.copied())),
            ColumnType::Enum8 => ColumnType::Enum8,
            ColumnType::Enum16 => ColumnType::Enum16,
            ColumnType::SimpleAggregateFunction(t) => ColumnType::SimpleAggregateFunction(
                Box::new(t.copied()),
            ),
            ColumnType::Array(t) => ColumnType::Array(Box::new(t.copied())),
            ColumnType::Tuple(ts) => {
                let out = ColumnType::clone_all(ts);
                proof {
                    lemma_tys(*ts);
                    lemma_tys(out);
                }
                ColumnType::Tuple(out)
            },
            ColumnType::Mapping(k, v) => ColumnType::Mapping(
                Box::new(k.copied()),
                Box::new(v.copied()),
            ),
            ColumnType::Json => ColumnType::Json,
            ColumnType::Point => ColumnType::Point,
            ColumnType::Variant(ts) => {
                let out = ColumnType::clone_all(ts);
                proof {
                    lemma_tys(*ts);
                    lemma_tys(out);
                }
                ColumnType::Variant(out)
            },
            ColumnType::NewJson => ColumnType::NewJson,
            ColumnType::Dynamic => ColumnType::Dynamic,
        }
    }

    /// Types of the same values.
    pub fn clone_all(ts: &Vec<ColumnType>) -> (out: Vec<ColumnType>)
        ensures
            tys(out@) == tys(ts@),
            out@.len() == ts@.len(),
        decreases ts,
    {
        let mut out: Vec<ColumnType> = Vec::new();
        let mut i: usize = 0;
        while i < ts.len()
            invariant
                i <= ts.len(),
                out@.len() == i,
                tys(out@) =~= tys(ts@.take(i as int)),
            decreases ts.len() - i,
        {
            let t = ts[i].copied();
            proof {
                lemma_tys_push(out@, t);
                lemma_tys_push(ts@.take(i as int), ts@[i as int]);
                assert(ts@.take(i + 1) =~= ts@.take(i as int).push(ts@[i as int]));
            }
            out.push(t);
            i = i + 1;
        }
        assert(ts@.take(i as int) =~= ts@);
        out
    }
}

impl Clone for ColumnType {
    fn clone(&self) -> (out: ColumnType)
        ensures
            out@ == self@,
    {
        self.copied()
    }
}

/// The type with a bare name, without arguments.
pub open spec fn plain_type(s: Seq<char>) -> Option<Ty> {
    // Bool is an alias for UInt8 (true=1, false=0) on the wire.
    if s == "Bool"@ || s == "UInt8"@ {
        Some(Ty::UInt8)
    } else if s == "UInt16"@ {
        Some(Ty::UInt16)
    } else if s == "UInt32"@ {
        Some(Ty::UInt32)
    } else if s == "UInt64"@ {
        Some(Ty::UInt64)
    } else if s == "Int8"@ {
        Some(Ty::Int8)
    } else if s == "Int16"@ {
        Some(Ty::Int16)
    } else if s == "Int32"@ {
        Some(Ty::Int32)
    } else if s == "Int64"@ {
        Some(Ty::Int64)
    } else if s == "Int128"@ {
        Some(Ty::Int128)
    } else if s == "UInt128"@ {
        Some(Ty::UInt128)
    } else if s == "Int256"@ {
        Some(Ty::Int256)
    } else if s == "UInt256"@ {
        Some(Ty::UInt256)
    } else if s == "Float32"@ {
        Some(Ty::Float32)
    } else if s == "Float64"@ {
        Some(Ty::Float64)
    } else if s == "BFloat16"@ {
        Some(Ty::BFloat16)
    } else if s == "String"@ {
        Some(Ty::String)
    } else if s == "UUID"@ {
        Some(Ty::Uuid)
    } else if s == "IPv4"@ {
        Some(Ty::IPv4)
    } else if s == "IPv6"@ {
        Some(Ty::IPv6)
    } else if s == "Date"@ {
        Some(Ty::Date)
    } else if s == "Date32"@ {
        Some(Ty::Date32)
    } else if s == "DateTime"@ {
        Some(Ty::DateTime)
    } else if s == "Time"@ {
        Some(Ty::Time)
    } else if s == "JSON"@ {
        // New JSON type (ClickHouse 24.x+) -- path-based columnar format.
        Some(Ty::NewJson)
    } else if s == "Dynamic"@ {
        Some(Ty::Dynamic)
    } else if s == "Object('json')"@ {
        // Legacy Object('json') -- stored as a plain String on the wire.
        Some(Ty::Json)
    } else if s == "Point"@ {
        Some(Ty::Point)
    } else {
        None
    }
}

/// The type with a bare name, without arguments.
fn plain_name(s: &[char]) -> (out: Option<ColumnType>)
    ensures
        match out {
            Some(t) => plain_type(s@) == Some(t@),
            None => plain_type(s@) is None,
        },
{
    if spells(s, "Bool") || spells(s, "UInt8") {
        Some(ColumnType::UInt8)
    } else if spells(s, "UInt16") {
        Some(ColumnType::UInt16)
    } else if spells(s, "UInt32") {
        Some(ColumnType::UInt32)
    } else if spells(s, "UInt64") {
        Some(ColumnType::UInt64)
    } else if spells(s, "Int8") {
        Some(ColumnType::Int8)
    } else if spells(s, "Int16") {
        Some(ColumnType::Int16)
    } else if spells(s, "Int32") {
        Some(ColumnType::Int32)
    } else if spells(s, "Int64") {
        Some(ColumnType::Int64)
    } else if spells(s, "Int128") {
        Some(ColumnType::Int128)
    } else if spells(s, "UInt128") {
        Some(ColumnType::UInt128)
    } else if spells(s, "Int256") {
        Some(ColumnType::Int256)
    } else if spells(s, "UInt256") {
        Some(ColumnType::UInt256)
    } else if spells(s, "Float32") {
        Some(ColumnType::Float32)
    } else if spells(s, "Float64") {
        Some(ColumnType::Float64)
    } else if spells(s, "BFloat16") {
        Some(ColumnType::BFloat16)
    } else if spells(s, "String") {
        Some(ColumnType::String)
    } else if spells(s, "UUID") {
        Some(ColumnType::Uuid)
    } else if spells(s, "IPv4") {
        Some(ColumnType::IPv4)
    } else if spells(s, "IPv6") {
        Some(ColumnType::IPv6)
    } else if spells(s, "Date") {
        Some(ColumnType::Date)
    } else if spells(s, "Date32") {
        Some(ColumnType::Date32)
    } else if spells(s, "DateTime") {
        Some(ColumnType::DateTime)
    } else if spells(s, "Time") {
        Some(ColumnType::Time)
    } else if spells(s, "JSON") {
        Some(ColumnType::NewJson)
    } else if spells(s, "Dynamic") {
        Some(ColumnType::Dynamic)
    } else if spells(s, "Object('json')") {
        Some(ColumnType::Json)
    } else if spells(s, "Point") {
        Some(ColumnType::Point)
    } else {
        None
    }
}

/// The `u8` that `s`, trimmed, spells.
pub open spec fn small(s: Seq<char>) -> Option<u8> {
    match parse_within(trim(s, Strip::White), false, 0, u8::MAX as int) {
        Some(n) => Some(n as u8),
        None => None,
    }
}

/// The `u8` that `s`, trimmed, spells, or zero.
pub open spec fn small_or_zero(s: Seq<char>) -> u8 {
    match small(s) {
        Some(n) => n,
        None => 0,
    }
}

/// The `u8` that `s`, trimmed, spells.
pub(crate) fn small_number(s: &[char]) -> (out: Option<u8>)
    ensures
        out == small(s@),
{
    match parse_unsigned(trimmed(s, Strip::White), 255) {
        Some(n) => Some(n as u8),
        None => None,
    }
}

/// The greatest sub-second precision of a `DateTime64`.
pub const MAX_SUB_SECOND_DIGITS: u8 = 9;

/// `DateTime64(precision)` or `DateTime64(precision, 'timezone')`, by its
/// arguments; `None` for a precision that the type does not have.
pub open spec fn date_time64(args: Seq<Seq<char>>) -> Option<Ty> {
    let zone = trim(trim(args[1], Strip::White), Strip::One('\''));
    let precision = if args.len() > 0 {
        small_or_zero(args[0])
    } else {
        0
    };
    if precision > MAX_SUB_SECOND_DIGITS {
        None
    } else {
        Some(
            Ty::DateTime64 {
                precision,
                timezone: if args.len() > 1 && zone.len() > 0 {
                    Some(zone)
                } else {
                    None
                },
            },
        )
    }
}

/// Generic `Decimal(precision, scale)`, by its arguments: the narrowest
/// backing integer that holds the precision.
pub open spec fn decimal_type(args: Seq<Seq<char>>) -> Option<Ty> {
    if args.len() != 2 {
        None
    } else {
        match (small(args[0]), small(args[1])) {
            (Some(precision), Some(scale)) => if precision <= 9 {
                Some(Ty::Decimal32 { precision, scale })
            } else if precision <= 18 {
                Some(Ty::Decimal64 { precision, scale })
            } else if precision <= 38 {
                Some(Ty::Decimal128 { precision, scale })
            } else {
                Some(Ty::Decimal256 { precision, scale })
            },
            _ => None,
        }
    }
}

/// The type that `SimpleAggregateFunction(` is followed by: what stands behind
/// the first comma, without the closing parenthesis.
pub open spec fn aggregated(rest: Seq<char>) -> Option<Seq<char>> {
    match first_cut(rest, 0) {
        Some(comma) => {
            let inner = trim(rest.skip((comma + 1) as int), Strip::White);
            Some(
                if inner.len() > 0 && inner.last() == ')' {
                    inner.drop_last()
                } else {
                    inner
                },
            )
        },
        None => None,
    }
}

proof fn lemma_first_cut(s: Seq<char>, from: nat)
    ensures
        first_cut(s, from) matches Some(i) ==> i < s.len(),
    decreases s.len() - from,
{
    if from < s.len() {
        lemma_first_cut(s, from + 1);
    }
}

pub proof fn lemma_aggregated_len(rest: Seq<char>)
    ensures
        aggregated(rest) matches Some(inner) ==> inner.len() < rest.len(),
{
    lemma_first_cut(rest, 0);
    if let Some(comma) = first_cut(rest, 0) {
        lemma_trim_len(rest.skip((comma + 1) as int), Strip::White);
    }
}

/// The types that `args` name, where every one of them names a type.
/// `limit` bounds the length of a name.
pub open spec fn types_of(args: Seq<Seq<char>>, limit: nat, level: nat) -> Option<Seq<Ty>>
    decreases limit, 0nat, args.len(),
{
    if args.len() == 0 {
        Some(seq![])
    } else {
        match types_of(args.drop_last(), limit, level) {
            Some(ts) if args.last().len() < limit => match type_within(args.last(), level) {
                Some(t) => Some(ts.push(t)),
                None => None,
            },
            _ => None,
        }
    }
}

/// The type that `s` names; `None` for an unsupported type, and for nesting
/// past [`MAX_TYPE_PARSE_DEPTH`].
pub open spec fn type_of(s: Seq<char>) -> Option<Ty> {
    type_within(s, 0)
}

/// The type that `s` names inside `level` wrappers.
pub open spec fn type_within(s: Seq<char>, level: nat) -> Option<Ty>
    decreases s.len(), 1nat, 0nat,
{
    proof {
        lemma_trim_len(s, Strip::White);
    }
    let t = trim(s, Strip::White);
    if level > MAX_TYPE_PARSE_DEPTH || max_depth(t) > MAX_TYPE_PARSE_DEPTH {
        None
    } else if let Some(inner) = outer(t, "Nullable"@) {
        match type_within(inner, level + 1) {
            Some(x) => Some(Ty::Nullable(Box::new(x))),
            None => None,
        }
    } else if let Some(inner) = outer(t, "LowCardinality"@) {
        match type_within(inner, level + 1) {
            Some(x) => Some(Ty::LowCardinality(Box::new(x))),
            None => None,
        }
    } else if let Some(inner) = outer(t, "FixedString"@) {
        match parse_within(inner, false, 0, usize::MAX as int) {
            Some(n) => Some(Ty::FixedString(n as usize)),
            None => None,
        }
    } else if let Some(inner) = outer(t, "DateTime64"@) {
        date_time64(type_args(inner))
    } else if has_prefix(t, "DateTime("@) {
        Some(Ty::DateTime)
    } else if has_prefix(t, "Time64("@) {
        Some(Ty::Time64)
    } else if let Some(inner) = outer(t, "Decimal32"@) {
        Some(Ty::Decimal32 { precision: 9, scale: small_or_zero(inner) })
    } else if let Some(inner) = outer(t, "Decimal64"@) {
        Some(Ty::Decimal64 { precision: 18, scale: small_or_zero(inner) })
    } else if let Some(inner) = outer(t, "Decimal128"@) {
        Some(Ty::Decimal128 { precision: 38, scale: small_or_zero(inner) })
    } else if let Some(inner) = outer(t, "Decimal256"@) {
        Some(Ty::Decimal256 { precision: 76, scale: small_or_zero(inner) })
    } else if let Some(inner) = outer(t, "Decimal"@) {
        decimal_type(type_args(inner))
    } else if has_prefix(t, "Enum8("@) {
        Some(Ty::Enum8)
    } else if has_prefix(t, "Enum16("@) {
        Some(Ty::Enum16)
    } else if let Some(inner) = outer(t, "Array"@) {
        match type_within(inner, level + 1) {
            Some(x) => Some(Ty::Array(Box::new(x))),
            None => None,
        }
    } else if let Some(inner) = outer(t, "Tuple"@) {
        match types_of(type_args(inner), s.len(), level + 1) {
            Some(xs) if xs.len() > 0 => Some(Ty::Tuple(xs)),
            _ => None,
        }
    } else if let Some(inner) = outer(t, "Map"@) {
        match types_of(type_args(inner), s.len(), level + 1) {
            Some(xs) if xs.len() == 2 => Some(Ty::Mapping(Box::new(xs[0]), Box::new(xs[1]))),
            _ => None,
        }
    } else if has_prefix(t, "SimpleAggregateFunction("@) {
        match aggregated(t.skip(24)) {
            Some(inner) if inner.len() < s.len() => match type_within(inner, level + 1) {
                Some(x) => Some(Ty::SimpleAggregateFunction(Box::new(x))),
                None => None,
            },
            _ => None,
        }
    } else if let Some(inner) = outer(t, "Variant"@) {
        match types_of(type_args(inner), s.len(), level + 1) {
            Some(xs) if xs.len() > 0 => Some(Ty::Variant(xs)),
            _ => None,
        }
    } else if has_prefix(t, "Dynamic("@) {
        Some(Ty::Dynamic)
    } else {
        plain_type(t)
    }
}

/// As many types as names, where there are types at all.
pub proof fn lemma_types_of_len(args: Seq<Seq<char>>, limit: nat, level: nat)
    ensures
        types_of(args, limit, level) matches Some(ts) ==> ts.len() == args.len(),
    decreases args.len(),
{
    if args.len() > 0 {
        lemma_types_of_len(args.drop_last(), limit, level);
    }
}

/// One name without a type leaves the whole list without types.
proof fn lemma_types_of_none(args: Seq<Seq<char>>, limit: nat, level: nat, k: int)
    requires
        0 <= k <= args.len(),
        types_of(args.take(k), limit, level) is None,
    ensures
        types_of(args, limit, level) is None,
    decreases args.len() - k,
{
    if k < args.len() {
        assert(args.take(k + 1).drop_last() =~= args.take(k));
        lemma_types_of_none(args, limit, level, k + 1);
    } else {
        assert(args.take(k) =~= args);
    }
}

/// The types that `args` name, where every one of them names a type.
fn parse_all(args: &Vec<&[char]>, level: usize, Ghost(limit): Ghost<nat>) -> (out: Option<Vec<ColumnType>>)
    requires
        forall|i: int| 0 <= i < args@.len() ==> (#[trigger] args@[i])@.len() < limit,
    ensures
        match out {
            Some(ts) => types_of(texts(args@), limit, level as nat) == Some(tys(ts@)) && ts@.len()
                == args@.len(),
            None => types_of(texts(args@), limit, level as nat) is None,
        },
    decreases limit, 0nat, 0nat,
{
    let mut out: Vec<ColumnType> = Vec::new();
    let mut i: usize = 0;
    let ghost all = texts(args@);
    while i < args.len()
        invariant
            all == texts(args@),
            i <= args.len(),
            out@.len() == i,
            forall|i: int| 0 <= i < args@.len() ==> (#[trigger] args@[i])@.len() < limit,
            types_of(all.take(i as int), limit, level as nat) == Some(tys(out@)),
        decreases args.len() - i,
    {
        let arg = args[i];
        proof {
            assert(all.take(i + 1).drop_last() =~= all.take(i as int));
            assert(all.take(i + 1).last() == arg@);
        }
        match parse_chars(arg, level) {
            Some(t) => {
                proof {
                    lemma_tys_push(out@, t);
                }
                out.push(t);
            },
            None => {
                proof {
                    lemma_types_of_none(all, limit, level as nat, i + 1);
                }
                return None;
            },
        }
        i = i + 1;
    }
    assert(all.take(i as int) =~= all);
    Some(out)
}

/// The type that `s` names.
fn parse_chars(s: &[char], level: usize) -> (out: Option<ColumnType>)
    ensures
        match out {
            Some(t) => type_within(s@, level as nat) == Some(t@),
            None => type_within(s@, level as nat) is None,
        },
    decreases s@.len(), 1nat, 0nat,
{
    let t = trimmed(s, Strip::White);
    proof {
        lemma_trim_len(s@, Strip::White);
    }
    // A name of unbalanced parentheses can nest deeper than it opens them, so
    // the wrappers are counted too.
    if level > MAX_TYPE_PARSE_DEPTH || paren_depth(t) > MAX_TYPE_PARSE_DEPTH {
        return None;
    }
    if let Some(inner) = strip_outer(t, "Nullable") {
        return match parse_chars(inner, level + 1) {
            Some(x) => Some(ColumnType::Nullable(Box::new(x))),
            None => None,
        };
    }
    if let Some(inner) = strip_outer(t, "LowCardinality") {
        return match parse_chars(inner, level + 1) {
            Some(x) => Some(ColumnType::LowCardinality(Box::new(x))),
            None => None,
        };
    }
    if let Some(inner) = strip_outer(t, "FixedString") {
        return match parse_unsigned(inner, usize::MAX as u128) {
            Some(n) => Some(ColumnType::FixedString(n as usize)),
            None => None,
        };
    }
    if let Some(inner) = strip_outer(t, "DateTime64") {
        return parse_date_time64(inner);
    }
    if begins_with(t, "DateTime(") {
        return Some(ColumnType::DateTime);
    }
    if begins_with(t, "Time64(") {
        return Some(ColumnType::Time64);
    }
    // Sized Decimal forms take only scale; precision is implied by the
    // backing width (Decimal32->9, 64->18, 128->38, 256->76).

    if let Some(inner) = strip_outer(t, "Decimal32") {
        return Some(ColumnType::Decimal32 { precision: 9, scale: small_number_or_zero(inner) });
    }
    if let Some(inner) = strip_outer(t, "Decimal64") {
        return Some(ColumnType::Decimal64 { precision: 18, scale: small_number_or_zero(inner) });
    }
    if let Some(inner) = strip_outer(t, "Decimal128") {
        return Some(ColumnType::Decimal128 { precision: 38, scale: small_number_or_zero(inner) });
    }
    if let Some(inner) = strip_outer(t, "Decimal256") {
        return Some(ColumnType::Decimal256 { precision: 76, scale: small_number_or_zero(inner) });
    }
    // Generic Decimal(precision, scale) -- map to Decimal32/64/128/256 by precision.

    if let Some(inner) = strip_outer(t, "Decimal") {
        return parse_decimal(inner);
    }
    // Enum8(...) / Enum16(...) -- one and two wire bytes, signed ordinals.

    if begins_with(t, "Enum8(") {
        return Some(ColumnType::Enum8);
    }
    if begins_with(t, "Enum16(") {
        return Some(ColumnType::Enum16);
    }
    // Array(T)

    if let Some(inner) = strip_outer(t, "Array") {
        return match parse_chars(inner, level + 1) {
            Some(x) => Some(ColumnType::Array(Box::new(x))),
            None => None,
        };
    }
    // Tuple(T1, T2, ...)

    if let Some(inner) = strip_outer(t, "Tuple") {
        let args = split_type_args(inner);
        proof {
            lemma_args_below(inner@, args@);
        }
        return match parse_all(&args, level + 1, Ghost(s@.len())) {
            Some(xs) => {
                // Only accept if all fields parsed successfully.
                if xs.len() > 0 {
                    proof {
                        lemma_tys(xs);
                    }
                    Some(ColumnType::Tuple(xs))
                } else {
                    None
                }
            },
            None => None,
        };
    }
    // Map(K, V)

    if let Some(inner) = strip_outer(t, "Map") {
        let args = split_type_args(inner);
        proof {
            lemma_args_below(inner@, args@);
            lemma_types_of_len(texts(args@), s@.len(), (level + 1) as nat);
        }
        if args.len() != 2 {
            return None;
        }
        return match parse_all(&args, level + 1, Ghost(s@.len())) {
            Some(mut xs) => {
                let ghost both = xs@;
                let value = xs.remove(1);
                let key = xs.remove(0);
                proof {
                    assert(tys(both)[0] == key@);
                    assert(tys(both)[1] == value@);
                }
                Some(ColumnType::Mapping(Box::new(key), Box::new(value)))
            },
            None => None,
        };
    }
    // SimpleAggregateFunction(func, T) -- strip wrapper, read as T

    if begins_with(t, "SimpleAggregateFunction(") {
        proof {
            reveal_strlit("SimpleAggregateFunction(");
            assert(t@.subrange(24, t@.len() as int) =~= t@.skip(24));
            lemma_aggregated_len(t@.skip(24));
        }
        let rest = vstd::slice::slice_subrange(t, 24, t.len());
        return match find_first_comma_at_depth0(rest) {
            Some(comma) => {
                proof {
                    assert(rest@.subrange(comma + 1, rest@.len() as int) =~= rest@.skip(
                        comma + 1,
                    ));
                }
                let inner = trimmed(
                    vstd::slice::slice_subrange(rest, comma + 1, rest.len()),
                    Strip::White,
                );
                let inner = if inner.len() > 0 && inner[inner.len() - 1] == ')' {
                    proof {
                        assert(inner@.subrange(0, inner@.len() - 1) =~= inner@.drop_last());
                    }
                    vstd::slice::slice_subrange(inner, 0, inner.len() - 1)
                } else {
                    inner
                };
                match parse_chars(inner, level + 1) {
                    Some(x) => Some(ColumnType::SimpleAggregateFunction(Box::new(x))),
                    None => None,
                }
            },
            None => None,
        };
    }
    // Variant(T1, T2, ...) -- discriminated union

    if let Some(inner) = strip_outer(t, "Variant") {
        let args = split_type_args(inner);
        proof {
            lemma_args_below(inner@, args@);
        }
        return match parse_all(&args, level + 1, Ghost(s@.len())) {
            Some(xs) => {
                if xs.len() > 0 {
                    proof {
                        lemma_tys(xs);
                    }
                    Some(ColumnType::Variant(xs))
                } else {
                    None
                }
            },
            None => None,
        };
    }
    // Dynamic(N) -- with optional max_types param

    if begins_with(t, "Dynamic(") {
        return Some(ColumnType::Dynamic);
    }
    plain_name(t)
}

proof fn lemma_args_below(inner: Seq<char>, args: Seq<&[char]>)
    requires
        texts(args) == type_args(inner),
    ensures
        forall|i: int| 0 <= i < args.len() ==> (#[trigger] args[i])@.len() <= inner.len(),
{
    lemma_type_args_len(inner);
    assert forall|i: int| 0 <= i < args.len() implies (#[trigger] args[i])@.len()
        <= inner.len() by {
        assert(texts(args)[i] == args[i]@);
    }
}

fn small_number_or_zero(s: &[char]) -> (out: u8)
    ensures
        out == small_or_zero(s@),
{
    match small_number(s) {
        Some(n) => n,
        None => 0,
    }
}

/// `DateTime64(precision)` or `DateTime64(precision, 'timezone')`.
fn parse_date_time64(inner: &[char]) -> (out: Option<ColumnType>)
    ensures
        match out {
            Some(t) => date_time64(type_args(inner@)) == Some(t@),
            None => date_time64(type_args(inner@)) is None,
        },
{
    let args = split_type_args(inner);
    proof {
        assert(forall|i: int| 0 <= i < args@.len() ==> texts(args@)[i] == #[trigger] args@[i]@);
    }
    let precision: u8 = if args.len() > 0 {
        small_number_or_zero(args[0])
    } else {
        0
    };
    let timezone: Option<String> = if args.len() > 1 {
        let zone = trimmed(trimmed(args[1], Strip::White), Strip::One('\''));
        if zone.len() > 0 {
            Some(text_of(zone))
        } else {
            None
        }
    } else {
        None
    };
    if precision > MAX_SUB_SECOND_DIGITS {
        return None;
    }
    Some(ColumnType::DateTime64 { precision, timezone })
}

/// Generic `Decimal(precision, scale)`.
fn parse_decimal(inner: &[char]) -> (out: Option<ColumnType>)
    ensures
        match out {
            Some(t) => decimal_type(type_args(inner@)) == Some(t@),
            None => decimal_type(type_args(inner@)) is None,
        },
{
    let args = split_type_args(inner);
    proof {
        assert(forall|i: int| 0 <= i < args@.len() ==> texts(args@)[i] == #[trigger] args@[i]@);
    }
    if args.len() != 2 {
        return None;
    }
    match (small_number(args[0]), small_number(args[1])) {
        (Some(precision), Some(scale)) => {
            if precision <= 9 {
                Some(ColumnType::Decimal32 { precision, scale })
            } else if precision <= 18 {
                Some(ColumnType::Decimal64 { precision, scale })
            } else if precision <= 38 {
                Some(ColumnType::Decimal128 { precision, scale })
            } else {
                Some(ColumnType::Decimal256 { precision, scale })
            }
        },
        _ => None,
    }
}

impl ColumnType {
    /// Parse a `ClickHouse` type name into `ColumnType`.
    ///
    /// `None` for an unsupported type, and for nesting past
    /// [`MAX_TYPE_PARSE_DEPTH`].
    pub fn parse(type_str: &str) -> (out: Option<Self>)
        ensures
            match out {
                Some(t) => type_of(type_str@) == Some(t@),
                None => type_of(type_str@) is None,
            },
    {
        let chars = chars_of(type_str);
        parse_chars(chars.as_slice(), 0)
    }
}

/// How deep the wrappers of a type nest.
pub open spec fn nesting(t: Ty) -> nat
    decreases t,
{
    match t {
        Ty::Nullable(x) => 1 + nesting(*x),
        Ty::LowCardinality(x) => 1 + nesting(*x),
        Ty::SimpleAggregateFunction(x) => 1 + nesting(*x),
        Ty::Array(x) => 1 + nesting(*x),
        Ty::Mapping(k, v) => 1 + if nesting(*k) > nesting(*v) {
            nesting(*k)
        } else {
            nesting(*v)
        },
        Ty::Tuple(xs) => 1 + deepest(xs),
        Ty::Variant(xs) => 1 + deepest(xs),
        _ => 0,
    }
}

/// How deep the wrappers of the deepest of `ts` nest.
pub open spec fn deepest(ts: Seq<Ty>) -> nat
    decreases ts,
{
    if ts.len() == 0 {
        0
    } else {
        let rest = deepest(ts.subrange(0, ts.len() - 1));
        if nesting(ts[ts.len() - 1]) > rest {
            nesting(ts[ts.len() - 1])
        } else {
            rest
        }
    }
}

proof fn lemma_nesting(s: Seq<char>, level: nat)
    ensures
        type_within(s, level) matches Some(t) ==> level + nesting(t) <= MAX_TYPE_PARSE_DEPTH,
    decreases s.len(), 1nat, 0nat,
{
    let t = trim(s, Strip::White);
    lemma_trim_len(s, Strip::White);
    if level <= MAX_TYPE_PARSE_DEPTH && max_depth(t) <= MAX_TYPE_PARSE_DEPTH {
        if let Some(inner) = outer(t, "Nullable"@) {
            lemma_nesting(inner, level + 1);
        }
        if let Some(inner) = outer(t, "LowCardinality"@) {
            lemma_nesting(inner, level + 1);
        }
        if let Some(inner) = outer(t, "Array"@) {
            lemma_nesting(inner, level + 1);
        }
        if let Some(inner) = outer(t, "Tuple"@) {
            lemma_deepest(type_args(inner), s.len(), level + 1);
        }
        if let Some(inner) = outer(t, "Map"@) {
            lemma_deepest(type_args(inner), s.len(), level + 1);
            reveal_with_fuel(deepest, 3);
        }
        if let Some(inner) = aggregated(t.skip(24)) {
            if inner.len() < s.len() {
                lemma_nesting(inner, level + 1);
            }
        }
        if let Some(inner) = outer(t, "Variant"@) {
            lemma_deepest(type_args(inner), s.len(), level + 1);
        }
    }
}

proof fn lemma_deepest(args: Seq<Seq<char>>, limit: nat, level: nat)
    ensures
        types_of(args, limit, level) matches Some(ts) ==> ts.len() == 0 || level + deepest(ts)
            <= MAX_TYPE_PARSE_DEPTH,
    decreases limit, 0nat, args.len(),
{
    if args.len() > 0 {
        lemma_deepest(args.drop_last(), limit, level);
        if args.last().len() < limit {
            lemma_nesting(args.last(), level);
        }
        if let Some(ts) = types_of(args, limit, level) {
            let before = types_of(args.drop_last(), limit, level)->Some_0;
            assert(ts.subrange(0, ts.len() - 1) =~= before);
        }
    }
}

/// No name parses to a type whose wrappers nest past the cap.
pub proof fn law_parse_depth(s: Seq<char>)
    ensures
        type_of(s) matches Some(t) ==> nesting(t) <= MAX_TYPE_PARSE_DEPTH,
{
    lemma_nesting(s, 0);
}

/// Fixed wire-format size in bytes; `None` for variable-length types.
pub open spec fn fixed_size(t: Ty) -> Option<usize> {
    match t {
        Ty::UInt8 => Some(1usize),
        Ty::Int8 => Some(1usize),
        Ty::Enum8 => Some(1usize),
        Ty::BFloat16 => Some(2usize),
        Ty::UInt16 => Some(2usize),
        Ty::Int16 => Some(2usize),
        Ty::Date => Some(2usize),
        Ty::Enum16 => Some(2usize),
        Ty::UInt32 => Some(4usize),
        Ty::Int32 => Some(4usize),
        Ty::Float32 => Some(4usize),
        Ty::DateTime => Some(4usize),
        Ty::Date32 => Some(4usize),
        Ty::Decimal32 { .. } => Some(4usize),
        Ty::IPv4 => Some(4usize),
        Ty::Time => Some(4usize),
        Ty::UInt64 => Some(8usize),
        Ty::Int64 => Some(8usize),
        Ty::Float64 => Some(8usize),
        Ty::DateTime64 { .. } => Some(8usize),
        Ty::Decimal64 { .. } => Some(8usize),
        Ty::Time64 => Some(8usize),
        Ty::Int128 => Some(16usize),
        Ty::UInt128 => Some(16usize),
        Ty::Uuid => Some(16usize),
        Ty::IPv6 => Some(16usize),
        Ty::Decimal128 { .. } => Some(16usize),
        Ty::Int256 => Some(32usize),
        Ty::UInt256 => Some(32usize),
        Ty::Decimal256 { .. } => Some(32usize),
        Ty::FixedString(n) => Some(n),
        // Point is Tuple(Float64, Float64) in columnar format -- not a flat 16-byte blob.
        _ => None,
    }
}

impl ColumnType {
    /// Fixed wire-format size in bytes; `None` for variable-length types.
    pub fn fixed_size(&self) -> (out: Option<usize>)
        ensures
            out == fixed_size(self@),
    {
        match self {
            ColumnType::UInt8 | ColumnType::Int8 | ColumnType::Enum8 => Some(1),
            ColumnType::BFloat16
            | ColumnType::UInt16
            | ColumnType::Int16
            | ColumnType::Date
            | ColumnType::Enum16 => Some(2),
            ColumnType::UInt32
            | ColumnType::Int32
            | ColumnType::Float32
            | ColumnType::DateTime
            | ColumnType::Date32
            | ColumnType::Decimal32 { .. }
            | ColumnType::IPv4
            | ColumnType::Time => Some(4),
            ColumnType::UInt64
            | ColumnType::Int64
            | ColumnType::Float64
            | ColumnType::DateTime64 { .. }
            | ColumnType::Decimal64 { .. }
            | ColumnType::Time64 => Some(8),
            ColumnType::Int128
            | ColumnType::UInt128
            | ColumnType::Uuid
            | ColumnType::IPv6
            | ColumnType::Decimal128 { .. } => Some(16),
            ColumnType::Int256 | ColumnType::UInt256 | ColumnType::Decimal256 { .. } => Some(32),
            ColumnType::FixedString(n) => Some(*n),
            ColumnType::String
            | ColumnType::Json
            | ColumnType::Nullable(_)
            | ColumnType::LowCardinality(_)
            | ColumnType::SimpleAggregateFunction(_)
            | ColumnType::Array(_)
            | ColumnType::Tuple(_)
            | ColumnType::Mapping(_, _)
            | ColumnType::Variant(_)
            | ColumnType::NewJson
            | ColumnType::Dynamic
            | ColumnType::Point => None,
        }
    }
}

} // verus!
