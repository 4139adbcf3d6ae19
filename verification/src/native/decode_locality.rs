//! The typed decoder is local, as the cell readers are.

use vstd::prelude::*;

use crate::native::columns::{type_of, Ty};
use crate::native::decode::{
    announced_reader, block_at, block_info_at, block_reader, block_values_at, blocks16_at,
    custom_flag_at, decode_at, decode_field_prefixes_at, decode_fields_at, decode_prefixes_at,
    json_decoded_at, lc_head_at, lc_tail_at, le_column_at, le_reader, offsets_at, rising_at,
    scalar_at, text_reader, texts_at, wide_column_at, LeScalar,
};
use crate::native::decoded::Col;
use crate::native::encode::has_custom;
use crate::native::io::{
    bytes_at, u32_at, u64_at, u8_at, utf8_string_at, var_uint_at, Read, WireView,
};
use crate::native::locality::{
    extends, law_column_is_local, lemma_bytes_local, lemma_json_body_local, lemma_le_local,
    lemma_many_local, lemma_nested_local, lemma_string_local, lemma_var_uint_local, local,
    local_run, longer,
};
use crate::native::reader::{last_or_zero, nested_reader};

verus! {

// ---------------------------------------------------------------------------
// Scalars
// ---------------------------------------------------------------------------

proof fn lemma_le_column_local<T: LeScalar>(a: WireView, b: WireView, pos: int, n: nat)
    requires
        extends(a, b),
        0 <= pos,
    ensures
        local(le_column_at::<T>(a, pos, n), le_column_at::<T>(b, pos, n), pos, a.bytes.len()),
{
    let f = le_reader::<T>(a.bytes);
    let g = le_reader::<T>(b.bytes);
    assert forall|p: int|
        #![trigger f(p)]
        #![trigger g(p)]
        0 <= p implies local(f(p), g(p), p, a.bytes.len()) by {
        lemma_bytes_local(a.bytes, b.bytes, p, T::spec_width());
    }
    lemma_many_local(f, g, pos, n, a.bytes.len());
}

proof fn lemma_block_run_local(d: Seq<u8>, e: Seq<u8>, size: nat)
    requires
        longer(d, e),
    ensures
        local_run(block_reader(d, size), block_reader(e, size), d.len()),
{
    let f = block_reader(d, size);
    let g = block_reader(e, size);
    assert forall|p: int|
        #![trigger f(p)]
        #![trigger g(p)]
        0 <= p implies local(f(p), g(p), p, d.len()) by {
        lemma_bytes_local(d, e, p, size);
    }
}

proof fn lemma_blocks_local(a: WireView, b: WireView, pos: int, n: nat)
    requires
        extends(a, b),
        0 <= pos,
    ensures
        local(wide_column_at(a, pos, n), wide_column_at(b, pos, n), pos, a.bytes.len()),
        local(blocks16_at(a, pos, n), blocks16_at(b, pos, n), pos, a.bytes.len()),
{
    lemma_block_run_local(a.bytes, b.bytes, 32);
    lemma_block_run_local(a.bytes, b.bytes, 16);
    lemma_many_local(
        block_reader(a.bytes, 32),
        block_reader(b.bytes, 32),
        pos,
        n,
        a.bytes.len(),
    );
    lemma_many_local(
        block_reader(a.bytes, 16),
        block_reader(b.bytes, 16),
        pos,
        n,
        a.bytes.len(),
    );
}

proof fn lemma_texts_local(a: WireView, b: WireView, pos: int, n: nat)
    requires
        extends(a, b),
        0 <= pos,
    ensures
        local(texts_at(a, pos, n), texts_at(b, pos, n), pos, a.bytes.len()),
{
    let f = text_reader(a.bytes);
    let g = text_reader(b.bytes);
    assert forall|p: int|
        #![trigger f(p)]
        #![trigger g(p)]
        0 <= p implies local(f(p), g(p), p, a.bytes.len()) by {
        lemma_string_local(a.bytes, b.bytes, p);
    }
    lemma_many_local(f, g, pos, n, a.bytes.len());
}

proof fn lemma_json_decoded_local(a: WireView, b: WireView, pos: int, n: nat)
    requires
        extends(a, b),
        0 <= pos,
    ensures
        local(json_decoded_at(a, pos, n), json_decoded_at(b, pos, n), pos, a.bytes.len()),
{
    lemma_le_local(a.bytes, b.bytes, pos, 8);
    if let Ok((version, p)) = u64_at(b.bytes, pos) {
        lemma_texts_local(a, b, p, n);
        lemma_nested_local(a, b, 1);
        lemma_json_body_local(nested_reader(a, 1), nested_reader(b, 1), a, b, p, n, version);
    }
}

/// Two scalar columns are read the same way, and locally.
pub open spec fn local_scalar(
    first: Option<Read<Col>>,
    then: Option<Read<Col>>,
    pos: int,
    len: nat,
) -> bool {
    match (first, then) {
        (Some(x), Some(y)) => local(x, y, pos, len),
        (None, None) => true,
        _ => false,
    }
}

proof fn lemma_scalar_local(a: WireView, b: WireView, pos: int, t: Ty, rows: u64)
    requires
        extends(a, b),
        0 <= pos,
    ensures
        local_scalar(
            scalar_at(a, pos, t, rows),
            scalar_at(b, pos, t, rows),
            pos,
            a.bytes.len(),
        ),
{
    let n = rows as nat;
    match t {
        Ty::UInt8 => {
            lemma_bytes_local(a.bytes, b.bytes, pos, n);
        },
        Ty::Enum8 => {
            lemma_bytes_local(a.bytes, b.bytes, pos, n);
        },
        Ty::Int8 => {
            lemma_bytes_local(a.bytes, b.bytes, pos, n);
        },
        Ty::UInt16 => {
            lemma_le_column_local::<u16>(a, b, pos, n);
        },
        Ty::Enum16 => {
            lemma_le_column_local::<u16>(a, b, pos, n);
        },
        Ty::Int16 => {
            lemma_le_column_local::<i16>(a, b, pos, n);
        },
        Ty::UInt32 => {
            lemma_le_column_local::<u32>(a, b, pos, n);
        },
        Ty::Int32 => {
            lemma_le_column_local::<i32>(a, b, pos, n);
        },
        Ty::UInt64 => {
            lemma_le_column_local::<u64>(a, b, pos, n);
        },
        Ty::Int64 => {
            lemma_le_column_local::<i64>(a, b, pos, n);
        },
        Ty::Int128 => {
            lemma_le_column_local::<i128>(a, b, pos, n);
        },
        Ty::UInt128 => {
            lemma_le_column_local::<u128>(a, b, pos, n);
        },
        Ty::Float32 => {
            lemma_le_column_local::<u32>(a, b, pos, n);
        },
        Ty::Float64 => {
            lemma_le_column_local::<u64>(a, b, pos, n);
        },
        Ty::Date => {
            lemma_le_column_local::<u16>(a, b, pos, n);
        },
        Ty::Date32 => {
            lemma_le_column_local::<i32>(a, b, pos, n);
        },
        Ty::DateTime => {
            lemma_le_column_local::<u32>(a, b, pos, n);
        },
        Ty::IPv4 => {
            lemma_le_column_local::<u32>(a, b, pos, n);
        },
        Ty::Decimal32 { .. } => {
            lemma_le_column_local::<i32>(a, b, pos, n);
        },
        Ty::Decimal64 { .. } => {
            lemma_le_column_local::<i64>(a, b, pos, n);
        },
        Ty::Decimal128 { .. } => {
            lemma_le_column_local::<i128>(a, b, pos, n);
        },
        Ty::DateTime64 { .. } => {
            lemma_le_column_local::<i64>(a, b, pos, n);
        },
        Ty::Int256 => {
            lemma_blocks_local(a, b, pos, n);
        },
        Ty::UInt256 => {
            lemma_blocks_local(a, b, pos, n);
        },
        Ty::Decimal256 { .. } => {
            lemma_blocks_local(a, b, pos, n);
        },
        Ty::Uuid => {
            lemma_blocks_local(a, b, pos, n);
        },
        Ty::IPv6 => {
            lemma_blocks_local(a, b, pos, n);
        },
        Ty::String => {
            lemma_texts_local(a, b, pos, n);
        },
        Ty::Json => {
            lemma_texts_local(a, b, pos, n);
        },
        Ty::FixedString(width) => {
            if width * n <= usize::MAX {
                lemma_bytes_local(a.bytes, b.bytes, pos, (width * n) as nat);
            }
        },
        Ty::NewJson => {
            lemma_json_decoded_local(a, b, pos, n);
        },
        Ty::Nullable(_) => {},
        Ty::Array(_) => {},
        Ty::Tuple(_) => {},
        Ty::Mapping(_, _) => {},
        Ty::LowCardinality(_) => {},
        Ty::SimpleAggregateFunction(_) => {},
        _ => {
            law_column_is_local(a, b, pos, t, rows);
        },
    }
}

// ---------------------------------------------------------------------------
// Composites
// ---------------------------------------------------------------------------

proof fn lemma_rising_local(d: Seq<u8>, e: Seq<u8>, pos: int, n: nat, what: Seq<char>)
    requires
        longer(d, e),
        0 <= pos,
    ensures
        local(rising_at(d, pos, n, what), rising_at(e, pos, n, what), pos, d.len()),
    decreases n,
{
    if n > 0 {
        lemma_rising_local(d, e, pos, (n - 1) as nat, what);
        if let Ok((_, p)) = rising_at(e, pos, (n - 1) as nat, what) {
            lemma_le_local(d, e, p, 8);
        }
    }
}

proof fn lemma_head_local(a: WireView, b: WireView, pos: int)
    requires
        extends(a, b),
        0 <= pos,
    ensures
        local(lc_head_at(a, pos), lc_head_at(b, pos), pos, a.bytes.len()),
{
    lemma_le_local(a.bytes, b.bytes, pos, 8);
    if let Ok((_, p)) = u64_at(b.bytes, pos) {
        lemma_le_local(a.bytes, b.bytes, p, 8);
    }
}

proof fn lemma_tail_local(
    a: WireView,
    b: WireView,
    pos: int,
    rows: u64,
    flags: u64,
    dict: Col,
    nullable: bool,
)
    requires
        extends(a, b),
        0 <= pos,
    ensures
        local(
            lc_tail_at(a, pos, rows, flags, dict, nullable),
            lc_tail_at(b, pos, rows, flags, dict, nullable),
            pos,
            a.bytes.len(),
        ),
{
    lemma_le_local(a.bytes, b.bytes, pos, 8);
    if let Ok((_, p)) = u64_at(b.bytes, pos) {
        let n = rows as nat;
        lemma_bytes_local(a.bytes, b.bytes, p, n);
        lemma_le_column_local::<u16>(a, b, p, n);
        lemma_le_column_local::<u32>(a, b, p, n);
        lemma_le_column_local::<u64>(a, b, p, n);
    }
}

pub proof fn lemma_decode_local(a: WireView, b: WireView, pos: int, t: Ty, rows: u64, depth: nat)
    requires
        extends(a, b),
        0 <= pos,
    ensures
        local(
            decode_at(a, pos, t, rows, depth),
            decode_at(b, pos, t, rows, depth),
            pos,
            a.bytes.len(),
        ),
    decreases t,
{
    let n = rows as nat;
    lemma_scalar_local(a, b, pos, t, rows);
    match t {
        Ty::Nullable(x) => {
            lemma_bytes_local(a.bytes, b.bytes, pos, n);
            if let Ok((_, p)) = bytes_at(b.bytes, pos, n) {
                lemma_decode_local(a, b, p, *x, rows, depth + 1);
            }
        },
        Ty::Array(x) => {
            lemma_rising_local(a.bytes, b.bytes, pos, n, "Array"@);
            if let Ok((offsets, p)) = offsets_at(b, pos, n, "Array"@) {
                lemma_decode_local(a, b, p, *x, last_or_zero(offsets), depth + 1);
            }
        },
        Ty::Mapping(k, v) => {
            lemma_rising_local(a.bytes, b.bytes, pos, n, "Map"@);
            if let Ok((offsets, p)) = offsets_at(b, pos, n, "Map"@) {
                lemma_decode_local(a, b, p, *k, last_or_zero(offsets), depth + 1);
                if let Ok((_, q)) = decode_at(b, p, *k, last_or_zero(offsets), depth + 1) {
                    lemma_decode_local(a, b, q, *v, last_or_zero(offsets), depth + 1);
                }
            }
        },
        Ty::Tuple(ts) => {
            lemma_decode_fields_local(a, b, pos, ts, rows, depth + 1);
        },
        Ty::LowCardinality(x) => {
            lemma_head_local(a, b, pos);
            if let Ok(((flags, size), p)) = lc_head_at(b, pos) {
                match *x {
                    Ty::Nullable(y) => {
                        lemma_decode_local(a, b, p, *y, size, depth + 1);
                        if let Ok((d, q)) = decode_at(b, p, *y, size, depth + 1) {
                            lemma_tail_local(a, b, q, rows, flags, d, true);
                        }
                    },
                    _ => {
                        lemma_decode_local(a, b, p, *x, size, depth + 1);
                        if let Ok((d, q)) = decode_at(b, p, *x, size, depth + 1) {
                            lemma_tail_local(a, b, q, rows, flags, d, false);
                        }
                    },
                }
            }
        },
        Ty::SimpleAggregateFunction(x) => {
            lemma_decode_local(a, b, pos, *x, rows, depth + 1);
        },
        _ => {},
    }
}

proof fn lemma_decode_fields_local(
    a: WireView,
    b: WireView,
    pos: int,
    ts: Seq<Ty>,
    rows: u64,
    depth: nat,
)
    requires
        extends(a, b),
        0 <= pos,
    ensures
        local(
            decode_fields_at(a, pos, ts, rows, depth),
            decode_fields_at(b, pos, ts, rows, depth),
            pos,
            a.bytes.len(),
        ),
    decreases ts,
{
    if ts.len() > 0 {
        let n = ts.len() - 1;
        lemma_decode_fields_local(a, b, pos, ts.subrange(0, n), rows, depth);
        if let Ok((_, p)) = decode_fields_at(b, pos, ts.subrange(0, n), rows, depth) {
            lemma_decode_local(a, b, p, ts[n as int], rows, depth);
        }
    }
}

pub proof fn lemma_decode_prefixes_local(a: WireView, b: WireView, pos: int, t: Ty, depth: nat)
    requires
        extends(a, b),
        0 <= pos,
    ensures
        local(
            decode_prefixes_at(a, pos, t, depth),
            decode_prefixes_at(b, pos, t, depth),
            pos,
            a.bytes.len(),
        ),
    decreases t,
{
    lemma_le_local(a.bytes, b.bytes, pos, 8);
    match t {
        Ty::Nullable(x) => {
            lemma_decode_prefixes_local(a, b, pos, *x, depth + 1);
        },
        Ty::Array(x) => {
            lemma_decode_prefixes_local(a, b, pos, *x, depth + 1);
        },
        Ty::SimpleAggregateFunction(x) => {
            lemma_decode_prefixes_local(a, b, pos, *x, depth + 1);
        },
        Ty::Tuple(ts) => {
            lemma_decode_field_prefixes_local(a, b, pos, ts, depth + 1);
        },
        Ty::Mapping(k, v) => {
            lemma_decode_prefixes_local(a, b, pos, *k, depth + 1);
            if let Ok((_, p)) = decode_prefixes_at(b, pos, *k, depth + 1) {
                lemma_decode_prefixes_local(a, b, p, *v, depth + 1);
            }
        },
        _ => {},
    }
}

proof fn lemma_decode_field_prefixes_local(
    a: WireView,
    b: WireView,
    pos: int,
    ts: Seq<Ty>,
    depth: nat,
)
    requires
        extends(a, b),
        0 <= pos,
    ensures
        local(
            decode_field_prefixes_at(a, pos, ts, depth),
            decode_field_prefixes_at(b, pos, ts, depth),
            pos,
            a.bytes.len(),
        ),
    decreases ts,
{
    if ts.len() > 0 {
        let n = ts.len() - 1;
        lemma_decode_field_prefixes_local(a, b, pos, ts.subrange(0, n), depth);
        if let Ok((_, p)) = decode_field_prefixes_at(b, pos, ts.subrange(0, n), depth) {
            lemma_decode_prefixes_local(a, b, p, ts[n as int], depth);
        }
    }
}

// ---------------------------------------------------------------------------
// Blocks
// ---------------------------------------------------------------------------

pub proof fn lemma_values_local(a: WireView, b: WireView, pos: int, t: Ty, rows: u64)
    requires
        extends(a, b),
        0 <= pos,
    ensures
        local(
            block_values_at(a, pos, t, rows),
            block_values_at(b, pos, t, rows),
            pos,
            a.bytes.len(),
        ),
{
    if rows > 0 {
        lemma_decode_prefixes_local(a, b, pos, t, 0);
        if let Ok((_, p)) = decode_prefixes_at(b, pos, t, 0) {
            lemma_decode_local(a, b, p, t, rows, 0);
        }
    } else {
        lemma_decode_local(a, b, pos, t, rows, 0);
    }
}

proof fn lemma_flag_local(a: WireView, b: WireView, pos: int, custom: bool, name: Seq<char>)
    requires
        extends(a, b),
        0 <= pos,
    ensures
        local(
            custom_flag_at(a, pos, custom, name),
            custom_flag_at(b, pos, custom, name),
            pos,
            a.bytes.len(),
        ),
{
    lemma_le_local(a.bytes, b.bytes, pos, 1);
}

pub proof fn lemma_announced_local(a: WireView, b: WireView, rows: u64, custom: bool)
    requires
        extends(a, b),
    ensures
        local_run(
            announced_reader(a, rows, custom),
            announced_reader(b, rows, custom),
            a.bytes.len(),
        ),
{
    let f = announced_reader(a, rows, custom);
    let g = announced_reader(b, rows, custom);
    assert forall|pos: int|
        #![trigger f(pos)]
        #![trigger g(pos)]
        0 <= pos implies local(f(pos), g(pos), pos, a.bytes.len()) by {
        lemma_string_local(a.bytes, b.bytes, pos);
        if let Ok((name, p)) = utf8_string_at(b.bytes, pos) {
            lemma_string_local(a.bytes, b.bytes, p);
            if let Ok((declared, q)) = utf8_string_at(b.bytes, p) {
                lemma_flag_local(a, b, q, custom, name);
                if let Ok((_, s)) = custom_flag_at(b, q, custom, name) {
                    if let Some(t) = type_of(declared) {
                        lemma_values_local(a, b, s, t, rows);
                    }
                }
            }
        }
    }
}

/// Decoding a block is local: with more bytes behind them, bytes that sufficed
/// give the same block or the same error; and where a block ends within the
/// bytes there are, those suffice. A block can so be decoded from a stream as
/// its bytes arrive.
pub proof fn law_block_is_local(
    a: WireView,
    b: WireView,
    pos: int,
    num_columns: u64,
    num_rows: u64,
    revision: u64,
)
    requires
        extends(a, b),
        0 <= pos,
    ensures
        local(
            block_at(a, pos, num_columns, num_rows, revision),
            block_at(b, pos, num_columns, num_rows, revision),
            pos,
            a.bytes.len(),
        ),
{
    let custom = has_custom(revision);
    lemma_announced_local(a, b, num_rows, custom);
    lemma_many_local(
        announced_reader(a, num_rows, custom),
        announced_reader(b, num_rows, custom),
        pos,
        num_columns as nat,
        a.bytes.len(),
    );
}

/// Decoding a block looks at none of the bytes behind it: the bytes up to where
/// it ends give the same block.
pub proof fn law_block_consumes_exactly(
    w: WireView,
    pos: int,
    num_columns: u64,
    num_rows: u64,
    revision: u64,
)
    requires
        0 <= pos <= w.bytes.len(),
        block_at(w, pos, num_columns, num_rows, revision) is Ok,
    ensures
        ({
            let end = block_at(w, pos, num_columns, num_rows, revision)->Ok_0.1;
            &&& pos <= end <= w.bytes.len()
            &&& block_at(
                WireView { bytes: w.bytes.take(end), ..w },
                pos,
                num_columns,
                num_rows,
                revision,
            ) == block_at(w, pos, num_columns, num_rows, revision)
        }),
{
    let end = block_at(w, pos, num_columns, num_rows, revision)->Ok_0.1;
    let a = WireView { bytes: w.bytes.take(end), ..w };
    assert(pos <= end <= w.bytes.len()) by {
        assert(w.bytes.take(w.bytes.len() as int) =~= w.bytes);
        law_block_is_local(w, w, pos, num_columns, num_rows, revision);
    }
    assert(w.bytes.take(a.bytes.len() as int) =~= a.bytes);
    law_block_is_local(a, w, pos, num_columns, num_rows, revision);
}

/// Reading a block's info section is local.
pub proof fn law_block_info_is_local(d: Seq<u8>, e: Seq<u8>, pos: int)
    requires
        longer(d, e),
        0 <= pos,
    ensures
        local(block_info_at(d, pos), block_info_at(e, pos), pos, d.len()),
{
    lemma_var_uint_local(d, e, pos);
    if let Ok((_, p1)) = var_uint_at(e, pos) {
        lemma_le_local(d, e, p1, 1);
        if let Ok((_, p2)) = u8_at(e, p1) {
            lemma_var_uint_local(d, e, p2);
            if let Ok((_, p3)) = var_uint_at(e, p2) {
                lemma_le_local(d, e, p3, 4);
                if let Ok((_, p4)) = u32_at(e, p3) {
                    lemma_var_uint_local(d, e, p4);
                }
            }
        }
    }
}

} // verus!
