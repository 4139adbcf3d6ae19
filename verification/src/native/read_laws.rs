//! What a typed read of a column gives back of the values it was sent.

use vstd::prelude::*;
use vstd::string::*;

use crate::error::ErrorView;
use crate::native::columns::Ty;
use crate::native::decode::{block_values_at, unwrap_cell, utf8_doc};
use crate::native::decode_laws::{col_of, raws, scalar_col, texts};
use crate::native::decoded::{cell_text, mismatch, Col, DoubleBits, FromColumn, SingleBits};
use crate::native::io::{
    law_var_uint_round_trip, le_nat, lemma_pow256, lemma_stands_split, stands_at, string, twos,
    u64_at, var_uint, WireView,
};
use crate::native::reader::{body_at, column_at, json_column_at, nested_reader, Cells};
use crate::native::values::{
    all_fit, cell, cells, fits, lemma_all_fit, lemma_cells, lemma_each_ok, slot_vals, Val,
};

verus! {

proof fn lemma_one_byte(b: Seq<u8>)
    requires
        b.len() == 1,
    ensures
        le_nat(b) == b[0],
{
    assert(b.drop_first() =~= seq![]);
    assert(le_nat(b.drop_first()) == 0);
}

/// A column of unsigned numbers, days, seconds or IPv4 addresses reads as the
/// numbers that its little-endian bytes are, row by row.
pub proof fn law_unsigned_columns_read_as_their_numbers(
    vals: Seq<Val>,
    t: Ty,
    name: Seq<char>,
    declared: Seq<char>,
)
    requires
        all_fit(vals, t),
    ensures
        t is UInt8 ==> <u8>::convert(col_of(vals, t), name, declared) == Ok::<
            Seq<u8>,
            ErrorView,
        >(vals.map_values(|v: Val| le_nat(v->Raw_0) as u8)),
        t is Enum8 ==> <u8>::convert(col_of(vals, t), name, declared) == Ok::<
            Seq<u8>,
            ErrorView,
        >(vals.map_values(|v: Val| le_nat(v->Raw_0) as u8)),
        t is UInt16 ==> <u16>::convert(col_of(vals, t), name, declared) == Ok::<
            Seq<u16>,
            ErrorView,
        >(vals.map_values(|v: Val| le_nat(v->Raw_0) as u16)),
        t is Enum16 ==> <u16>::convert(col_of(vals, t), name, declared) == Ok::<
            Seq<u16>,
            ErrorView,
        >(vals.map_values(|v: Val| le_nat(v->Raw_0) as u16)),
        t is Date ==> <u16>::convert(col_of(vals, t), name, declared) == Ok::<
            Seq<u16>,
            ErrorView,
        >(vals.map_values(|v: Val| le_nat(v->Raw_0) as u16)),
        t is UInt32 ==> <u32>::convert(col_of(vals, t), name, declared) == Ok::<
            Seq<u32>,
            ErrorView,
        >(vals.map_values(|v: Val| le_nat(v->Raw_0) as u32)),
        t is DateTime ==> <u32>::convert(col_of(vals, t), name, declared) == Ok::<
            Seq<u32>,
            ErrorView,
        >(vals.map_values(|v: Val| le_nat(v->Raw_0) as u32)),
        t is IPv4 ==> <u32>::convert(col_of(vals, t), name, declared) == Ok::<
            Seq<u32>,
            ErrorView,
        >(vals.map_values(|v: Val| le_nat(v->Raw_0) as u32)),
        t is UInt64 ==> <u64>::convert(col_of(vals, t), name, declared) == Ok::<
            Seq<u64>,
            ErrorView,
        >(vals.map_values(|v: Val| le_nat(v->Raw_0) as u64)),
        t is UInt128 ==> <u128>::convert(col_of(vals, t), name, declared) == Ok::<
            Seq<u128>,
            ErrorView,
        >(vals.map_values(|v: Val| le_nat(v->Raw_0) as u128)),
{
    lemma_all_fit(vals, t);
    lemma_pow256();
    reveal(scalar_col);
    if t is UInt8 || t is Enum8 {
        match <u8>::convert(col_of(vals, t), name, declared) {
            Ok(got) => {
                assert forall|i: int| 0 <= i < vals.len() implies got[i] == le_nat(
                    (#[trigger] vals[i])->Raw_0,
                ) as u8 by {
                    assert(fits(vals[i], t));
                    lemma_one_byte(vals[i]->Raw_0);
                }
                assert(got =~= vals.map_values(|v: Val| le_nat(v->Raw_0) as u8));
            },
            Err(_) => {},
        }
    }
    if t is UInt16 || t is Enum16 || t is Date {
        match <u16>::convert(col_of(vals, t), name, declared) {
            Ok(got) => assert(got =~= vals.map_values(|v: Val| le_nat(v->Raw_0) as u16)),
            Err(_) => {},
        }
    }
    if t is UInt32 || t is DateTime || t is IPv4 {
        match <u32>::convert(col_of(vals, t), name, declared) {
            Ok(got) => assert(got =~= vals.map_values(|v: Val| le_nat(v->Raw_0) as u32)),
            Err(_) => {},
        }
    }
    if t is UInt64 {
        match <u64>::convert(col_of(vals, t), name, declared) {
            Ok(got) => assert(got =~= vals.map_values(|v: Val| le_nat(v->Raw_0) as u64)),
            Err(_) => {},
        }
    }
    if t is UInt128 {
        match <u128>::convert(col_of(vals, t), name, declared) {
            Ok(got) => assert(got =~= vals.map_values(|v: Val| le_nat(v->Raw_0) as u128)),
            Err(_) => {},
        }
    }
}

/// A column of signed numbers, days, ticks or decimals reads as the numbers that
/// its little-endian bytes are in two's complement, row by row.
pub proof fn law_signed_columns_read_as_their_numbers(
    vals: Seq<Val>,
    t: Ty,
    name: Seq<char>,
    declared: Seq<char>,
)
    requires
        all_fit(vals, t),
    ensures
        t is Int8 ==> <i8>::convert(col_of(vals, t), name, declared) == Ok::<
            Seq<i8>,
            ErrorView,
        >(vals.map_values(|v: Val| twos(le_nat(v->Raw_0), 1) as i8)),
        t is Int16 ==> <i16>::convert(col_of(vals, t), name, declared) == Ok::<
            Seq<i16>,
            ErrorView,
        >(vals.map_values(|v: Val| twos(le_nat(v->Raw_0), 2) as i16)),
        t is Int32 ==> <i32>::convert(col_of(vals, t), name, declared) == Ok::<
            Seq<i32>,
            ErrorView,
        >(vals.map_values(|v: Val| twos(le_nat(v->Raw_0), 4) as i32)),
        t is Date32 ==> <i32>::convert(col_of(vals, t), name, declared) == Ok::<
            Seq<i32>,
            ErrorView,
        >(vals.map_values(|v: Val| twos(le_nat(v->Raw_0), 4) as i32)),
        t is Decimal32 ==> <i32>::convert(col_of(vals, t), name, declared) == Ok::<
            Seq<i32>,
            ErrorView,
        >(vals.map_values(|v: Val| twos(le_nat(v->Raw_0), 4) as i32)),
        t is Int64 ==> <i64>::convert(col_of(vals, t), name, declared) == Ok::<
            Seq<i64>,
            ErrorView,
        >(vals.map_values(|v: Val| twos(le_nat(v->Raw_0), 8) as i64)),
        t is DateTime64 ==> <i64>::convert(col_of(vals, t), name, declared) == Ok::<
            Seq<i64>,
            ErrorView,
        >(vals.map_values(|v: Val| twos(le_nat(v->Raw_0), 8) as i64)),
        t is Decimal64 ==> <i64>::convert(col_of(vals, t), name, declared) == Ok::<
            Seq<i64>,
            ErrorView,
        >(vals.map_values(|v: Val| twos(le_nat(v->Raw_0), 8) as i64)),
        t is Int128 ==> <i128>::convert(col_of(vals, t), name, declared) == Ok::<
            Seq<i128>,
            ErrorView,
        >(vals.map_values(|v: Val| twos(le_nat(v->Raw_0), 16) as i128)),
        t is Decimal128 ==> <i128>::convert(col_of(vals, t), name, declared) == Ok::<
            Seq<i128>,
            ErrorView,
        >(vals.map_values(|v: Val| twos(le_nat(v->Raw_0), 16) as i128)),
{
    lemma_all_fit(vals, t);
    lemma_pow256();
    reveal(scalar_col);
    if t is Int8 {
        match <i8>::convert(col_of(vals, t), name, declared) {
            Ok(got) => {
                assert forall|i: int| 0 <= i < vals.len() implies got[i] == twos(
                    le_nat((#[trigger] vals[i])->Raw_0),
                    1,
                ) as i8 by {
                    assert(fits(vals[i], t));
                    lemma_one_byte(vals[i]->Raw_0);
                }
                assert(got =~= vals.map_values(|v: Val| twos(le_nat(v->Raw_0), 1) as i8));
            },
            Err(_) => {},
        }
    }
    if t is Int16 {
        match <i16>::convert(col_of(vals, t), name, declared) {
            Ok(got) => assert(got =~= vals.map_values(|v: Val| twos(le_nat(v->Raw_0), 2) as i16)),
            Err(_) => {},
        }
    }
    if t is Int32 || t is Date32 || t is Decimal32 {
        match <i32>::convert(col_of(vals, t), name, declared) {
            Ok(got) => assert(got =~= vals.map_values(|v: Val| twos(le_nat(v->Raw_0), 4) as i32)),
            Err(_) => {},
        }
    }
    if t is Int64 || t is DateTime64 || t is Decimal64 {
        match <i64>::convert(col_of(vals, t), name, declared) {
            Ok(got) => assert(got =~= vals.map_values(|v: Val| twos(le_nat(v->Raw_0), 8) as i64)),
            Err(_) => {},
        }
    }
    if t is Int128 || t is Decimal128 {
        match <i128>::convert(col_of(vals, t), name, declared) {
            Ok(got) => assert(got =~= vals.map_values(|v: Val| twos(le_nat(v->Raw_0), 16) as i128)),
            Err(_) => {},
        }
    }
}

/// Floating-point columns read as the bits of their values, row by row.
pub proof fn law_float_columns_read_as_their_bits(
    vals: Seq<Val>,
    t: Ty,
    name: Seq<char>,
    declared: Seq<char>,
)
    requires
        all_fit(vals, t),
    ensures
        t is Float32 ==> SingleBits::convert(col_of(vals, t), name, declared) == Ok::<
            Seq<u32>,
            ErrorView,
        >(vals.map_values(|v: Val| le_nat(v->Raw_0) as u32)),
        t is Float64 ==> DoubleBits::convert(col_of(vals, t), name, declared) == Ok::<
            Seq<u64>,
            ErrorView,
        >(vals.map_values(|v: Val| le_nat(v->Raw_0) as u64)),
{
    reveal(scalar_col);
    if t is Float32 {
        match SingleBits::convert(col_of(vals, t), name, declared) {
            Ok(got) => assert(got =~= vals.map_values(|v: Val| le_nat(v->Raw_0) as u32)),
            Err(_) => {},
        }
    }
    if t is Float64 {
        match DoubleBits::convert(col_of(vals, t), name, declared) {
            Ok(got) => assert(got =~= vals.map_values(|v: Val| le_nat(v->Raw_0) as u64)),
            Err(_) => {},
        }
    }
}

/// Wide numbers, UUIDs, IPv6 addresses and strings read as the bytes that were
/// sent, row by row.
pub proof fn law_byte_columns_read_as_their_bytes(
    vals: Seq<Val>,
    t: Ty,
    name: Seq<char>,
    declared: Seq<char>,
)
    requires
        all_fit(vals, t),
    ensures
        t is Int256 || t is UInt256 || t is Decimal256 ==> <[u8; 32]>::convert(
            col_of(vals, t),
            name,
            declared,
        ) == Ok::<Seq<Seq<u8>>, ErrorView>(vals.map_values(|v: Val| v->Raw_0)),
        t is Uuid || t is IPv6 ==> <[u8; 16]>::convert(col_of(vals, t), name, declared) == Ok::<
            Seq<Seq<u8>>,
            ErrorView,
        >(vals.map_values(|v: Val| v->Raw_0)),
        t is String || t is Json ==> Vec::<u8>::convert(col_of(vals, t), name, declared) == Ok::<
            Seq<Seq<u8>>,
            ErrorView,
        >(vals.map_values(|v: Val| v->Text_0)),
{
    reveal(scalar_col);
    assert(raws(vals) =~= vals.map_values(|v: Val| v->Raw_0));
    assert(texts(vals) =~= vals.map_values(|v: Val| v->Text_0));
}

/// A Boolean is false where its byte is zero, and true where it is any other.
pub proof fn law_booleans_read_as_their_bytes(
    vals: Seq<Val>,
    name: Seq<char>,
    declared: Seq<char>,
)
    requires
        all_fit(vals, Ty::UInt8),
    ensures
        bool::convert(col_of(vals, Ty::UInt8), name, declared) == Ok::<Seq<bool>, ErrorView>(
            vals.map_values(|v: Val| v->Raw_0 != seq![0u8]),
        ),
{
    reveal(scalar_col);
    lemma_all_fit(vals, Ty::UInt8);
    match bool::convert(col_of(vals, Ty::UInt8), name, declared) {
        Ok(got) => {
            assert forall|i: int| 0 <= i < vals.len() implies got[i] == (vals[i]->Raw_0
                != seq![0u8]) by {
                assert(fits(vals[i], Ty::UInt8));
                if vals[i]->Raw_0[0] == 0 {
                    assert(vals[i]->Raw_0 =~= seq![0u8]);
                }
            }
            assert(got =~= vals.map_values(|v: Val| v->Raw_0 != seq![0u8]));
        },
        Err(_) => {},
    }
}

/// A column of strings in UTF-8 reads as the texts whose UTF-8 form was sent,
/// row by row.
pub proof fn law_text_columns_read_as_their_texts(
    vals: Seq<Val>,
    t: Ty,
    said: Seq<Seq<char>>,
    name: Seq<char>,
    declared: Seq<char>,
)
    requires
        t is String || t is Json,
        said.len() == vals.len(),
        forall|i: int|
            0 <= i < vals.len() ==> (#[trigger] vals[i])->Text_0 == vstd::utf8::encode_utf8(said[i]),
    ensures
        String::convert(col_of(vals, t), name, declared) == Ok::<Seq<Seq<char>>, ErrorView>(said),
{
    reveal(scalar_col);
    let all = texts(vals);
    let f = cell_text();
    assert forall|i: int| 0 <= i < all.len() implies f(#[trigger] all[i]) == Ok::<
        Seq<char>,
        ErrorView,
    >(said[i]) by {
        assert(vals[i]->Text_0 == vstd::utf8::encode_utf8(said[i]));
        vstd::utf8::encode_utf8_valid_utf8(said[i]);
        vstd::utf8::encode_utf8_decode_utf8(said[i]);
    }
    lemma_each_ok(all, f, said);
}

/// A column reads as a Rust type exactly where its values have that backing,
/// and is refused elsewhere, in words that name the column and its type.
pub proof fn law_other_columns_are_refused(c: Col, name: Seq<char>, declared: Seq<char>)
    ensures
        refused_unless(<u8>::convert(c, name, declared) is Ok, c is UInt8),
        refused_unless(<u16>::convert(c, name, declared) is Ok, c is UInt16 || c is Date),
        refused_unless(<u32>::convert(c, name, declared) is Ok, c is UInt32 || c is DateTime || c is Ipv4),
        refused_unless(<u64>::convert(c, name, declared) is Ok, c is UInt64),
        refused_unless(<u128>::convert(c, name, declared) is Ok, c is UInt128),
        refused_unless(<i8>::convert(c, name, declared) is Ok, c is Int8),
        refused_unless(<i16>::convert(c, name, declared) is Ok, c is Int16),
        refused_unless(<i32>::convert(c, name, declared) is Ok, c is Int32 || c is Date32 || c is Decimal32),
        refused_unless(<i64>::convert(c, name, declared) is Ok, c is Int64 || c is DateTime64 || c is Decimal64),
        refused_unless(<i128>::convert(c, name, declared) is Ok, c is Int128 || c is Decimal128),
        refused_unless(<SingleBits>::convert(c, name, declared) is Ok, c is Float32),
        refused_unless(<DoubleBits>::convert(c, name, declared) is Ok, c is Float64),
        refused_unless(<[u8; 32]>::convert(c, name, declared) is Ok, c is Int256 || c is UInt256 || c is Decimal256),
        refused_unless(<[u8; 16]>::convert(c, name, declared) is Ok, c is Uuid || c is Ipv6),
        refused_unless(<bool>::convert(c, name, declared) is Ok, c is UInt8),
        refused_unless(<Vec<u8>>::convert(c, name, declared) is Ok, c is String || c is Json),
        String::convert(c, name, declared) is Ok ==> c is String || c is Json,
        !(c is UInt8) ==> named_refusal(<u8>::convert(c, name, declared), name, declared),
        !(c is UInt16 || c is Date) ==> named_refusal(<u16>::convert(c, name, declared), name, declared),
        !(c is UInt32 || c is DateTime || c is Ipv4) ==> named_refusal(<u32>::convert(c, name, declared), name, declared),
        !(c is UInt64) ==> named_refusal(<u64>::convert(c, name, declared), name, declared),
        !(c is UInt128) ==> named_refusal(<u128>::convert(c, name, declared), name, declared),
        !(c is Int8) ==> named_refusal(<i8>::convert(c, name, declared), name, declared),
        !(c is Int16) ==> named_refusal(<i16>::convert(c, name, declared), name, declared),
        !(c is Int32 || c is Date32 || c is Decimal32) ==> named_refusal(<i32>::convert(c, name, declared), name, declared),
        !(c is Int64 || c is DateTime64 || c is Decimal64) ==> named_refusal(<i64>::convert(c, name, declared), name, declared),
        !(c is Int128 || c is Decimal128) ==> named_refusal(<i128>::convert(c, name, declared), name, declared),
        !(c is Float32) ==> named_refusal(<SingleBits>::convert(c, name, declared), name, declared),
        !(c is Float64) ==> named_refusal(<DoubleBits>::convert(c, name, declared), name, declared),
        !(c is Int256 || c is UInt256 || c is Decimal256) ==> named_refusal(<[u8; 32]>::convert(c, name, declared), name, declared),
        !(c is Uuid || c is Ipv6) ==> named_refusal(<[u8; 16]>::convert(c, name, declared), name, declared),
        !(c is UInt8) ==> named_refusal(<bool>::convert(c, name, declared), name, declared),
        !(c is String || c is Json) ==> named_refusal(<Vec<u8>>::convert(c, name, declared), name, declared),
{
    lemma_refusal(name, declared, "UInt8"@);
    lemma_refusal(name, declared, "UInt16"@);
    lemma_refusal(name, declared, "UInt32"@);
    lemma_refusal(name, declared, "UInt64"@);
    lemma_refusal(name, declared, "UInt128"@);
    lemma_refusal(name, declared, "Int8"@);
    lemma_refusal(name, declared, "Int16"@);
    lemma_refusal(name, declared, "Int32"@);
    lemma_refusal(name, declared, "Int64"@);
    lemma_refusal(name, declared, "Int128"@);
    lemma_refusal(name, declared, "Float32"@);
    lemma_refusal(name, declared, "Float64"@);
    lemma_refusal(name, declared, "a 256-bit column"@);
    lemma_refusal(name, declared, "a 16-byte column"@);
    lemma_refusal(name, declared, "Bool"@);
    lemma_refusal(name, declared, "String"@);
}

/// Whether something happens exactly where it may.
pub open spec fn refused_unless(happens: bool, may: bool) -> bool {
    happens <==> may
}

/// Whether an error says that column `name` is `declared`.
pub open spec fn names_column(e: ErrorView, name: Seq<char>, declared: Seq<char>) -> bool {
    e matches ErrorView::SchemaMismatch(text) && exists|tail: Seq<char>|
        text == #[trigger] ("native: column '"@ + name + "' is "@ + declared + tail)
}

/// Whether the outcome is an error that names the column and its type.
pub open spec fn named_refusal<T>(
    r: Result<T, ErrorView>,
    name: Seq<char>,
    declared: Seq<char>,
) -> bool {
    r matches Err(e) && names_column(e, name, declared)
}

proof fn lemma_refusal(name: Seq<char>, declared: Seq<char>, expected: Seq<char>)
    ensures
        names_column(mismatch(name, declared, expected), name, declared),
{
    let tail = ", which does not read as "@ + expected;
    assert("native: column '"@ + name + "' is "@ + declared + ", which does not read as "@
        + expected =~= "native: column '"@ + name + "' is "@ + declared + tail);
}

/// A nullable column reads as no value in the rows that are NULL, and in every
/// other as the value that the row holds.
pub proof fn law_nullable_columns_keep_their_rows<T: FromColumn>(
    vals: Seq<Val>,
    x: Ty,
    values: Seq<T::Value>,
    name: Seq<char>,
    declared: Seq<char>,
)
    requires
        all_fit(vals, Ty::Nullable(Box::new(x))),
        values.len() == vals.len(),
        T::convert(col_of(slot_vals(vals, x), x), name, declared) == Ok::<
            Seq<T::Value>,
            ErrorView,
        >(values),
    ensures
        Option::<T>::convert(col_of(vals, Ty::Nullable(Box::new(x))), name, declared) == Ok::<
            Seq<Option<T::Value>>,
            ErrorView,
        >(
            Seq::new(
                vals.len(),
                |i: int|
                    if vals[i] is Absent {
                        None
                    } else {
                        Some(values[i])
                    },
            ),
        ),
        forall|i: int|
            0 <= i < vals.len() ==> ((#[trigger] vals[i]) matches Val::Present(y) ==> slot_vals(
                vals,
                x,
            )[i] == *y),
{
    let t = Ty::Nullable(Box::new(x));
    lemma_all_fit(vals, t);
    lemma_cells(vals);
    let rows = Seq::new(
        vals.len(),
        |i: int|
            if vals[i] is Absent {
                None
            } else {
                Some(values[i])
            },
    );
    match Option::<T>::convert(col_of(vals, t), name, declared) {
        Ok(got) => {
            assert(got.len() == vals.len());
            assert forall|i: int| 0 <= i < vals.len() implies got[i] == rows[i] by {
                assert(fits(vals[i], t));
                assert(cells(vals)[i] == cell(vals[i]));
            }
            assert(got =~= rows);
        },
        Err(_) => {},
    }
}

/// A `Variant`, `Dynamic` or path-based JSON column decodes to the documents
/// that its cells hold, row by row.
pub proof fn law_documents_are_handed_on(
    w: WireView,
    pos: int,
    t: Ty,
    rows: u64,
    docs: Cells,
    end: int,
)
    requires
        t is Variant || t is Dynamic || t is NewJson,
        0 < rows <= usize::MAX,
        t is NewJson ==> u64_at(w.bytes, pos) is Ok && u64_at(w.bytes, pos)->Ok_0.0 != 1,
        column_at(w, pos, t, rows) == Ok::<(Cells, int), ErrorView>(
            (docs.map_values(|d: Seq<u8>| string(d)), end),
        ),
        forall|i: int|
            0 <= i < docs.len() ==> vstd::utf8::valid_utf8(#[trigger] docs[i]) && docs[i].len()
                <= u64::MAX,
    ensures
        block_values_at(w, pos, t, rows) == Ok::<(Col, int), ErrorView>((Col::Json(docs), end)),
{
    let held = docs.map_values(|d: Seq<u8>| string(d));
    let f = unwrap_cell();
    assert forall|i: int| 0 <= i < held.len() implies f(#[trigger] held[i]) == Ok::<
        Seq<u8>,
        ErrorView,
    >(docs[i]) by {
        let c = held[i];
        assert(c == string(docs[i]));
        assert(docs[i].len() <= u64::MAX);
        let head = var_uint(docs[i].len());
        assert(stands_at(c, 0, string(docs[i]))) by {
            assert(c.subrange(0, c.len() as int) =~= c);
        }
        lemma_stands_split(c, 0, head, docs[i]);
        law_var_uint_round_trip(c, 0, docs[i].len() as u64);
        assert(c.subrange(head.len() as int, c.len() as int) =~= docs[i]);
    }
    lemma_each_ok(held, f, docs);
    assert forall|i: int| 0 <= i < docs.len() implies utf8_doc()(#[trigger] docs[i]) == Ok::<
        Seq<u8>,
        ErrorView,
    >(docs[i]) by {
    }
    lemma_each_ok(docs, utf8_doc(), docs);
    if t is NewJson {
        assert(body_at(nested_reader(w, 1), w, pos, t, rows) == json_column_at(
            nested_reader(w, 1),
            w,
            pos,
            rows as nat,
        )) by {
            reveal(body_at);
        }
    }
}

} // verus!
