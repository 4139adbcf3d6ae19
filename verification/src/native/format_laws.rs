//! The fixed facts of the block format: widths, limits and the frame of a block.

use vstd::prelude::*;
use vstd::string::*;

use crate::error::ErrorView;
use crate::native::columns::{fixed_size, type_of, Ty};
use crate::native::decode::{block_at, block_info_at, MAX_BLOCK_COLUMNS, MAX_BLOCK_ROWS};
use crate::native::encode::{
    all_encodable, declared_type, default_cell, encodable, has_custom, header_columns, prefixes,
    SchemaView,
};
use crate::native::io::{claim, le_bytes, stands_at, var_uint_at, WireView};
use crate::native::laws::{all_plain, plain};
use crate::native::reader::{
    clamped, disc_width, ends_of, last_end, lc_cell, lc_flags, lc_width, Cells,
};

verus! {

/// How many bytes a value of each fixed-width type takes.
pub proof fn law_fixed_widths(t: Ty)
    ensures
        fixed_size(t) == Some(1usize) <==> (t is UInt8 || t is Int8 || t is Enum8 || t
            == Ty::FixedString(1)),
        fixed_size(t) == Some(2usize) <==> (t is UInt16 || t is Int16 || t is Enum16 || t is Date
            || t is BFloat16 || t == Ty::FixedString(2)),
        fixed_size(t) == Some(4usize) <==> (t is UInt32 || t is Int32 || t is Float32
            || t is DateTime || t is Date32 || t is Decimal32 || t is IPv4 || t is Time || t
            == Ty::FixedString(4)),
        fixed_size(t) == Some(8usize) <==> (t is UInt64 || t is Int64 || t is Float64
            || t is DateTime64 || t is Decimal64 || t is Time64 || t == Ty::FixedString(8)),
        fixed_size(t) == Some(16usize) <==> (t is UInt128 || t is Int128 || t is Decimal128
            || t is Uuid || t is IPv6 || t == Ty::FixedString(16)),
        fixed_size(t) == Some(32usize) <==> (t is UInt256 || t is Int256 || t is Decimal256 || t
            == Ty::FixedString(32)),
        t matches Ty::FixedString(n) ==> fixed_size(t) == Some(n),
{
}

/// Every type whose columns read back can be inserted.
pub proof fn law_plain_types_are_accepted(t: Ty)
    ensures
        plain(t) ==> encodable(t),
    decreases t, 1nat,
{
    if fixed_size(t) is None {
        match t {
            Ty::Nullable(x) => law_plain_types_are_accepted(*x),
            Ty::LowCardinality(x) => {
                law_plain_types_are_accepted(*x);
                if let Ty::Nullable(y) = *x {
                    law_plain_types_are_accepted(*y);
                }
            },
            Ty::Array(x) => law_plain_types_are_accepted(*x),
            Ty::Mapping(k, v) => {
                law_plain_types_are_accepted(*k);
                law_plain_types_are_accepted(*v);
            },
            Ty::Tuple(ts) => lemma_plain_fields(ts),
            _ => {},
        }
    }
}

proof fn lemma_plain_fields(ts: Seq<Ty>)
    ensures
        all_plain(ts) ==> all_encodable(ts),
    decreases ts, 0nat,
{
    if ts.len() > 0 {
        lemma_plain_fields(ts.subrange(0, ts.len() - 1));
        law_plain_types_are_accepted(ts[ts.len() - 1]);
    }
}

/// Headers are taken where each names a type that can be inserted, and then one
/// column stands for each, in order, under the name and the type that it
/// declares.
pub proof fn law_headers_are_taken_in_order(headers: Seq<(Seq<char>, Seq<char>)>)
    ensures
        match header_columns(headers) {
            Ok(columns) => {
                &&& columns.len() == headers.len()
                &&& forall|i: int|
                    0 <= i < headers.len() ==> {
                        let c = #[trigger] columns[i];
                        &&& c.name == headers[i].0
                        &&& c.type_text == headers[i].1
                        &&& type_of(headers[i].1) == Some(c.ty)
                        &&& encodable(c.ty)
                    }
            },
            Err(_) => exists|i: int|
                0 <= i < headers.len() && match type_of((#[trigger] headers[i]).1) {
                    Some(t) => !encodable(t),
                    None => true,
                },
        },
    decreases headers.len(),
{
    if headers.len() > 0 {
        let before = headers.drop_last();
        let n = headers.len() - 1;
        law_headers_are_taken_in_order(before);
        match header_columns(before) {
            Ok(_) => {
                if header_columns(headers) is Err {
                    assert(headers[n] == headers.last());
                }
            },
            Err(_) => {
                let i = choose|i: int|
                    0 <= i < before.len() && match type_of((#[trigger] before[i]).1) {
                        Some(t) => !encodable(t),
                        None => true,
                    };
                assert(headers[i] == before[i]);
            },
        }
    }
}

/// The block info is its two fields, each behind its number, and a zero; what
/// the fields hold does not matter.
pub proof fn law_block_info_is_passed_over(d: Seq<u8>, pos: int, overflows: u8, bucket: Seq<u8>)
    requires
        0 <= pos,
        bucket.len() == 4,
        stands_at(d, pos, seq![1u8, overflows, 2u8] + bucket + seq![0u8]),
    ensures
        block_info_at(d, pos) == Ok::<((), int), ErrorView>(((), pos + 8)),
{
    let s = seq![1u8, overflows, 2u8] + bucket + seq![0u8];
    assert(d.subrange(pos, pos + 8) =~= s);
    assert(d[pos] == s[0]);
    assert(d[pos + 2] == s[2]);
    assert(d[pos + 7] == s[7]);
    lemma_octet(d, pos, 1);
    lemma_octet(d, pos + 2, 2);
    lemma_octet(d, pos + 7, 0);
}

proof fn lemma_octet(d: Seq<u8>, pos: int, n: u8)
    requires
        0 <= pos < d.len(),
        d[pos] == n,
        n < 128,
    ensures
        var_uint_at(d, pos) == Ok::<(u64, int), ErrorView>((n as u64, pos + 1)),
{
}

/// A block info that begins with another field is refused.
pub proof fn law_other_block_info_is_refused(d: Seq<u8>, pos: int)
    requires
        0 <= pos < d.len(),
        d[pos] != 1,
        d[pos] < 128,
    ensures
        block_info_at(d, pos) is Err,
{
    lemma_octet(d, pos, d[pos]);
}

/// A buffer is granted exactly where its elements take no more bytes than the
/// budget.
pub proof fn law_buffers_stay_within_the_budget<T>(n: nat, budget: nat)
    ensures
        claim::<T>(n, budget) is Ok <==> n * vstd::layout::size_of::<T>() <= budget,
{
}

/// A block of more columns or rows than the caps is refused, whatever follows.
pub proof fn law_oversized_blocks_are_refused(
    w: WireView,
    pos: int,
    columns: u64,
    rows: u64,
    revision: u64,
)
    requires
        columns > MAX_BLOCK_COLUMNS || rows > MAX_BLOCK_ROWS,
    ensures
        block_at(w, pos, columns, rows, revision) is Err,
{
}

/// A discriminator is as wide as the number of types needs, and no wider.
pub proof fn law_discriminators_hold_every_type(slots: nat)
    requires
        slots <= u64::MAX,
    ensures
        disc_width(slots) == 1 <==> slots < 0x100,
        disc_width(slots) == 2 <==> 0x100 <= slots < 0x1_0000,
        disc_width(slots) == 4 <==> 0x1_0000 <= slots < 0x1_0000_0000,
        disc_width(slots) == 8 <==> 0x1_0000_0000 <= slots,
{
}

/// The flags of a dictionary block: the two lowest bits are the logarithm of
/// the index width, the ninth stands for a global dictionary, which is refused,
/// and the tenth for keys of the block's own, which it must have.
pub proof fn law_dictionary_flags(log: u64, global: bool, own: bool, high: u64)
    requires
        log < 4,
        high < 0x1_0000_0000,
    ensures
        ({
            let state = (log + (if global {
                0x100int
            } else {
                0int
            }) + (if own {
                0x200int
            } else {
                0int
            }) + high * 0x400) as u64;
            &&& lc_flags(state) is Ok <==> own && !global
            &&& log == 0 ==> lc_width(state) == 1
            &&& log == 1 ==> lc_width(state) == 2
            &&& log == 2 ==> lc_width(state) == 4
            &&& log == 3 ==> lc_width(state) == 8
        }),
{
}

/// An index into a dictionary stands for the key at that place; one of a
/// nullable column at place zero for NULL; and one past the dictionary for
/// nothing.
pub proof fn law_indices_stand_for_their_keys(dict: Cells, i: nat)
    ensures
        i < dict.len() ==> lc_cell(dict, i, false) == Ok::<Seq<u8>, ErrorView>(dict[i as int]),
        0 < i < dict.len() ==> lc_cell(dict, i, true) == Ok::<Seq<u8>, ErrorView>(
            seq![0u8] + dict[i as int],
        ),
        lc_cell(dict, 0, true) == Ok::<Seq<u8>, ErrorView>(seq![1u8]),
        i >= dict.len() ==> lc_cell(dict, i, false) is Err,
        i >= dict.len() && i > 0 ==> lc_cell(dict, i, true) is Err,
{
}

/// Offsets are taken as they are where each is no less than the one before it
/// and none is past the items, and are refused elsewhere.
pub proof fn law_offsets_rise_within_the_items(offsets: Seq<u64>, n: nat, what: Seq<char>)
    requires
        n <= usize::MAX,
    ensures
        match ends_of(offsets, n, what) {
            Ok(ends) => {
                &&& ends.len() == offsets.len()
                &&& forall|i: int|
                    0 <= i < ends.len() ==> #[trigger] ends[i] == clamped(offsets[i] as nat)
                        && ends[i] <= n
                &&& forall|i: int, j: int|
                    0 <= i <= j < ends.len() ==> #[trigger] ends[i] <= #[trigger] ends[j]
            },
            Err(_) => exists|j: int|
                0 <= j < offsets.len() && (clamped((#[trigger] offsets[j]) as nat) > n || (j > 0
                    && clamped(offsets[j] as nat) < clamped(offsets[j - 1] as nat))),
        },
    decreases offsets.len(),
{
    if offsets.len() > 0 {
        let before = offsets.drop_last();
        let k = offsets.len() - 1;
        law_offsets_rise_within_the_items(before, n, what);
        match ends_of(before, n, what) {
            Ok(ends) => {
                if k > 0 {
                    assert(last_end(ends) == ends[k - 1]);
                    assert(before[k - 1] == offsets[k - 1]);
                }
                if ends_of(offsets, n, what) is Err {
                    assert(offsets[k] == offsets.last());
                }
            },
            Err(_) => {
                let j = choose|j: int|
                    0 <= j < before.len() && (clamped((#[trigger] before[j]) as nat) > n || (j > 0
                        && clamped(before[j] as nat) < clamped(before[j - 1] as nat)));
                assert(offsets[j] == before[j]);
                if j > 0 {
                    assert(offsets[j - 1] == before[j - 1]);
                }
            },
        }
    }
}

/// The value behind a NULL is made of zeros, as wide as the type, or one zero
/// where values of the type have no fixed width.
pub proof fn law_null_slots_are_zero(t: Ty, i: int)
    requires
        0 <= i < default_cell(t).len(),
    ensures
        default_cell(t)[i] == 0,
        fixed_size(t) matches Some(n) ==> default_cell(t).len() == n,
        t is String || t is Json || t is Array || t is Mapping ==> default_cell(t).len() == 1,
    decreases t,
{
    if fixed_size(t) is None {
        if let Ty::LowCardinality(x) = t {
            law_null_slots_are_zero(*x, i);
        }
    }
}

/// A server takes the custom-serialization flag from the revision on that
/// introduced it.
pub proof fn law_the_flag_comes_with_its_revision(revision: u64)
    ensures
        has_custom(revision) <==> revision >= 54_454,
{
}

/// A JSON column is declared as a string, which the server casts, and any other
/// as the type that its header names.
pub proof fn law_json_is_declared_as_a_string(c: SchemaView)
    ensures
        c.ty is NewJson || c.ty is Json ==> declared_type(c) == "String"@,
        !(c.ty is NewJson || c.ty is Json) ==> declared_type(c) == c.type_text,
{
}

/// Every dictionary within a type is announced by the number one, in the order
/// of the types, and no other type is announced.
pub proof fn law_dictionaries_are_announced(x: Ty, k: Ty, v: Ty)
    ensures
        prefixes(Ty::LowCardinality(Box::new(x))) == seq![1u8, 0u8, 0u8, 0u8, 0u8, 0u8, 0u8, 0u8],
        prefixes(Ty::Nullable(Box::new(x))) == prefixes(x),
        prefixes(Ty::Array(Box::new(x))) == prefixes(x),
        prefixes(Ty::Mapping(Box::new(k), Box::new(v))) == prefixes(k) + prefixes(v),
        fixed_size(x) is Some || x is String || x is Json ==> prefixes(x) == Seq::<u8>::empty(),
{
    reveal_with_fuel(le_bytes, 9);
    assert(le_bytes(1, 8) =~= seq![1u8, 0u8, 0u8, 0u8, 0u8, 0u8, 0u8, 0u8]);
}

} // verus!
