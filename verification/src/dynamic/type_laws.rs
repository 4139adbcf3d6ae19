//! The two readings of a type string agree: the row encoder writes what the
//! block encoder reads.

use vstd::prelude::*;

use crate::dynamic::answers::AnswersView;
use crate::dynamic::encode::{resolved, row_wire, ColumnView};
use crate::dynamic::error::DynamicErrorView;
use crate::dynamic::insert::headers;
use crate::dynamic::parsed_type::{args_of, base_of, open_at, parsed_type, tag_of, Parsed};
use crate::dynamic::row_binary::{
    column_describes, describes, is_text, law_rows_suit_blocks, row_cells, row_countable, sound,
};
use crate::dynamic::value::Json;
use crate::error::ErrorView;
use crate::native::columns::{
    decimal_type, fixed_size, lemma_types_of_len, outer, piece_start, pieces, plain_type, small,
    type_args, type_of, type_within, types_of, Ty,
};
use crate::native::encode::{column_tys, header_columns, row_of, SchemaView};
use crate::text::{all_digits, has_prefix, is_white, lemma_trim_len, parse_within, trim, Strip};

verus! {

// ---------------------------------------------------------------------------
// Names
// ---------------------------------------------------------------------------

/// The letters of the type names.
pub proof fn lemma_letters()
    ensures
        "String"@ == seq!['S', 't', 'r', 'i', 'n', 'g'],
        "String"@.len() == 6,
        "FixedString"@ == seq!['F', 'i', 'x', 'e', 'd', 'S', 't', 'r', 'i', 'n', 'g'],
        "FixedString"@.len() == 11,
        "Bool"@ == seq!['B', 'o', 'o', 'l'],
        "Bool"@.len() == 4,
        "UInt8"@ == seq!['U', 'I', 'n', 't', '8'],
        "UInt8"@.len() == 5,
        "UInt16"@ == seq!['U', 'I', 'n', 't', '1', '6'],
        "UInt16"@.len() == 6,
        "UInt32"@ == seq!['U', 'I', 'n', 't', '3', '2'],
        "UInt32"@.len() == 6,
        "UInt64"@ == seq!['U', 'I', 'n', 't', '6', '4'],
        "UInt64"@.len() == 6,
        "UInt128"@ == seq!['U', 'I', 'n', 't', '1', '2', '8'],
        "UInt128"@.len() == 7,
        "UInt256"@ == seq!['U', 'I', 'n', 't', '2', '5', '6'],
        "UInt256"@.len() == 7,
        "Int8"@ == seq!['I', 'n', 't', '8'],
        "Int8"@.len() == 4,
        "Int16"@ == seq!['I', 'n', 't', '1', '6'],
        "Int16"@.len() == 5,
        "Int32"@ == seq!['I', 'n', 't', '3', '2'],
        "Int32"@.len() == 5,
        "Int64"@ == seq!['I', 'n', 't', '6', '4'],
        "Int64"@.len() == 5,
        "Int128"@ == seq!['I', 'n', 't', '1', '2', '8'],
        "Int128"@.len() == 6,
        "Int256"@ == seq!['I', 'n', 't', '2', '5', '6'],
        "Int256"@.len() == 6,
        "Enum8"@ == seq!['E', 'n', 'u', 'm', '8'],
        "Enum8"@.len() == 5,
        "Enum16"@ == seq!['E', 'n', 'u', 'm', '1', '6'],
        "Enum16"@.len() == 6,
        "Float32"@ == seq!['F', 'l', 'o', 'a', 't', '3', '2'],
        "Float32"@.len() == 7,
        "Float64"@ == seq!['F', 'l', 'o', 'a', 't', '6', '4'],
        "Float64"@.len() == 7,
        "Date"@ == seq!['D', 'a', 't', 'e'],
        "Date"@.len() == 4,
        "Date32"@ == seq!['D', 'a', 't', 'e', '3', '2'],
        "Date32"@.len() == 6,
        "DateTime"@ == seq!['D', 'a', 't', 'e', 'T', 'i', 'm', 'e'],
        "DateTime"@.len() == 8,
        "DateTime64"@ == seq!['D', 'a', 't', 'e', 'T', 'i', 'm', 'e', '6', '4'],
        "DateTime64"@.len() == 10,
        "Decimal32"@ == seq!['D', 'e', 'c', 'i', 'm', 'a', 'l', '3', '2'],
        "Decimal32"@.len() == 9,
        "Decimal64"@ == seq!['D', 'e', 'c', 'i', 'm', 'a', 'l', '6', '4'],
        "Decimal64"@.len() == 9,
        "Decimal128"@ == seq!['D', 'e', 'c', 'i', 'm', 'a', 'l', '1', '2', '8'],
        "Decimal128"@.len() == 10,
        "Decimal256"@ == seq!['D', 'e', 'c', 'i', 'm', 'a', 'l', '2', '5', '6'],
        "Decimal256"@.len() == 10,
        "UUID"@ == seq!['U', 'U', 'I', 'D'],
        "UUID"@.len() == 4,
        "IPv4"@ == seq!['I', 'P', 'v', '4'],
        "IPv4"@.len() == 4,
        "IPv6"@ == seq!['I', 'P', 'v', '6'],
        "IPv6"@.len() == 4,
        "Array"@ == seq!['A', 'r', 'r', 'a', 'y'],
        "Array"@.len() == 5,
        "Map"@ == seq!['M', 'a', 'p'],
        "Map"@.len() == 3,
        "JSON"@ == seq!['J', 'S', 'O', 'N'],
        "JSON"@.len() == 4,
        "Point"@ == seq!['P', 'o', 'i', 'n', 't'],
        "Point"@.len() == 5,
        "Tuple"@ == seq!['T', 'u', 'p', 'l', 'e'],
        "Tuple"@.len() == 5,
        "BFloat16"@ == seq!['B', 'F', 'l', 'o', 'a', 't', '1', '6'],
        "BFloat16"@.len() == 8,
        "Time"@ == seq!['T', 'i', 'm', 'e'],
        "Time"@.len() == 4,
        "Dynamic"@ == seq!['D', 'y', 'n', 'a', 'm', 'i', 'c'],
        "Dynamic"@.len() == 7,
        "Object('json')"@ == seq!['O', 'b', 'j', 'e', 'c', 't', '(', '\'', 'j', 's', 'o', 'n', '\'', ')'],
        "Object('json')"@.len() == 14,
        "Decimal"@ == seq!['D', 'e', 'c', 'i', 'm', 'a', 'l'],
        "Decimal"@.len() == 7,
        "Nullable"@ == seq!['N', 'u', 'l', 'l', 'a', 'b', 'l', 'e'],
        "Nullable"@.len() == 8,
        "LowCardinality"@ == seq!['L', 'o', 'w', 'C', 'a', 'r', 'd', 'i', 'n', 'a', 'l', 'i', 't', 'y'],
        "LowCardinality"@.len() == 14,
{
    reveal_strlit("String");
    assert("String"@ =~= seq!['S', 't', 'r', 'i', 'n', 'g']);
    reveal_strlit("FixedString");
    assert("FixedString"@ =~= seq!['F', 'i', 'x', 'e', 'd', 'S', 't', 'r', 'i', 'n', 'g']);
    reveal_strlit("Bool");
    assert("Bool"@ =~= seq!['B', 'o', 'o', 'l']);
    reveal_strlit("UInt8");
    assert("UInt8"@ =~= seq!['U', 'I', 'n', 't', '8']);
    reveal_strlit("UInt16");
    assert("UInt16"@ =~= seq!['U', 'I', 'n', 't', '1', '6']);
    reveal_strlit("UInt32");
    assert("UInt32"@ =~= seq!['U', 'I', 'n', 't', '3', '2']);
    reveal_strlit("UInt64");
    assert("UInt64"@ =~= seq!['U', 'I', 'n', 't', '6', '4']);
    reveal_strlit("UInt128");
    assert("UInt128"@ =~= seq!['U', 'I', 'n', 't', '1', '2', '8']);
    reveal_strlit("UInt256");
    assert("UInt256"@ =~= seq!['U', 'I', 'n', 't', '2', '5', '6']);
    reveal_strlit("Int8");
    assert("Int8"@ =~= seq!['I', 'n', 't', '8']);
    reveal_strlit("Int16");
    assert("Int16"@ =~= seq!['I', 'n', 't', '1', '6']);
    reveal_strlit("Int32");
    assert("Int32"@ =~= seq!['I', 'n', 't', '3', '2']);
    reveal_strlit("Int64");
    assert("Int64"@ =~= seq!['I', 'n', 't', '6', '4']);
    reveal_strlit("Int128");
    assert("Int128"@ =~= seq!['I', 'n', 't', '1', '2', '8']);
    reveal_strlit("Int256");
    assert("Int256"@ =~= seq!['I', 'n', 't', '2', '5', '6']);
    reveal_strlit("Enum8");
    assert("Enum8"@ =~= seq!['E', 'n', 'u', 'm', '8']);
    reveal_strlit("Enum16");
    assert("Enum16"@ =~= seq!['E', 'n', 'u', 'm', '1', '6']);
    reveal_strlit("Float32");
    assert("Float32"@ =~= seq!['F', 'l', 'o', 'a', 't', '3', '2']);
    reveal_strlit("Float64");
    assert("Float64"@ =~= seq!['F', 'l', 'o', 'a', 't', '6', '4']);
    reveal_strlit("Date");
    assert("Date"@ =~= seq!['D', 'a', 't', 'e']);
    reveal_strlit("Date32");
    assert("Date32"@ =~= seq!['D', 'a', 't', 'e', '3', '2']);
    reveal_strlit("DateTime");
    assert("DateTime"@ =~= seq!['D', 'a', 't', 'e', 'T', 'i', 'm', 'e']);
    reveal_strlit("DateTime64");
    assert("DateTime64"@ =~= seq!['D', 'a', 't', 'e', 'T', 'i', 'm', 'e', '6', '4']);
    reveal_strlit("Decimal32");
    assert("Decimal32"@ =~= seq!['D', 'e', 'c', 'i', 'm', 'a', 'l', '3', '2']);
    reveal_strlit("Decimal64");
    assert("Decimal64"@ =~= seq!['D', 'e', 'c', 'i', 'm', 'a', 'l', '6', '4']);
    reveal_strlit("Decimal128");
    assert("Decimal128"@ =~= seq!['D', 'e', 'c', 'i', 'm', 'a', 'l', '1', '2', '8']);
    reveal_strlit("Decimal256");
    assert("Decimal256"@ =~= seq!['D', 'e', 'c', 'i', 'm', 'a', 'l', '2', '5', '6']);
    reveal_strlit("UUID");
    assert("UUID"@ =~= seq!['U', 'U', 'I', 'D']);
    reveal_strlit("IPv4");
    assert("IPv4"@ =~= seq!['I', 'P', 'v', '4']);
    reveal_strlit("IPv6");
    assert("IPv6"@ =~= seq!['I', 'P', 'v', '6']);
    reveal_strlit("Array");
    assert("Array"@ =~= seq!['A', 'r', 'r', 'a', 'y']);
    reveal_strlit("Map");
    assert("Map"@ =~= seq!['M', 'a', 'p']);
    reveal_strlit("JSON");
    assert("JSON"@ =~= seq!['J', 'S', 'O', 'N']);
    reveal_strlit("Point");
    assert("Point"@ =~= seq!['P', 'o', 'i', 'n', 't']);
    reveal_strlit("Tuple");
    assert("Tuple"@ =~= seq!['T', 'u', 'p', 'l', 'e']);
    reveal_strlit("BFloat16");
    assert("BFloat16"@ =~= seq!['B', 'F', 'l', 'o', 'a', 't', '1', '6']);
    reveal_strlit("Time");
    assert("Time"@ =~= seq!['T', 'i', 'm', 'e']);
    reveal_strlit("Dynamic");
    assert("Dynamic"@ =~= seq!['D', 'y', 'n', 'a', 'm', 'i', 'c']);
    reveal_strlit("Object('json')");
    assert("Object('json')"@ =~= seq!['O', 'b', 'j', 'e', 'c', 't', '(', '\'', 'j', 's', 'o', 'n', '\'', ')']);
    reveal_strlit("Decimal");
    assert("Decimal"@ =~= seq!['D', 'e', 'c', 'i', 'm', 'a', 'l']);
    reveal_strlit("Nullable");
    assert("Nullable"@ =~= seq!['N', 'u', 'l', 'l', 'a', 'b', 'l', 'e']);
    reveal_strlit("LowCardinality");
    assert("LowCardinality"@ =~= seq!['L', 'o', 'w', 'C', 'a', 'r', 'd', 'i', 'n', 'a', 'l', 'i', 't', 'y']);
}

/// Whether a base name stands for itself: it begins like no wrapper, has no
/// parenthesis, and is not the bare `Decimal`.
spec fn is_tidy(name: Seq<char>) -> bool {
    &&& name.len() > 0
    &&& name[0] != 'L'
    &&& name[0] != 'N'
    &&& name != "Decimal"@
    &&& forall|i: int| 0 <= i < name.len() ==> #[trigger] name[i] != '('
}

proof fn lemma_tags_0()
    ensures
        tag_of("String"@) is String,
        is_tidy("String"@),
        tag_of("FixedString"@) is FixedString,
        is_tidy("FixedString"@),
        tag_of("Bool"@) is Bool,
        is_tidy("Bool"@),
        tag_of("UInt8"@) is UInt8,
        is_tidy("UInt8"@),
        tag_of("UInt16"@) is UInt16,
        is_tidy("UInt16"@),
        tag_of("UInt32"@) is UInt32,
        is_tidy("UInt32"@),
{
    lemma_letters();
}

proof fn lemma_tags_1()
    ensures
        tag_of("UInt64"@) is UInt64,
        is_tidy("UInt64"@),
        tag_of("UInt128"@) is UInt128,
        is_tidy("UInt128"@),
        tag_of("UInt256"@) is UInt256,
        is_tidy("UInt256"@),
        tag_of("Int8"@) is Int8,
        is_tidy("Int8"@),
        tag_of("Int16"@) is Int16,
        is_tidy("Int16"@),
        tag_of("Int32"@) is Int32,
        is_tidy("Int32"@),
{
    lemma_letters();
}

proof fn lemma_tags_2()
    ensures
        tag_of("Int64"@) is Int64,
        is_tidy("Int64"@),
        tag_of("Int128"@) is Int128,
        is_tidy("Int128"@),
        tag_of("Int256"@) is Int256,
        is_tidy("Int256"@),
        tag_of("Enum8"@) is Enum8,
        is_tidy("Enum8"@),
        tag_of("Enum16"@) is Enum16,
        is_tidy("Enum16"@),
        tag_of("Float32"@) is Float32,
        is_tidy("Float32"@),
{
    lemma_letters();
}

proof fn lemma_tags_3()
    ensures
        tag_of("Float64"@) is Float64,
        is_tidy("Float64"@),
        tag_of("Date"@) is Date,
        is_tidy("Date"@),
        tag_of("Date32"@) is Date32,
        is_tidy("Date32"@),
        tag_of("DateTime"@) is DateTime,
        is_tidy("DateTime"@),
        tag_of("DateTime64"@) is DateTime64,
        is_tidy("DateTime64"@),
        tag_of("Decimal32"@) is Decimal32,
        is_tidy("Decimal32"@),
{
    lemma_letters();
}

proof fn lemma_tags_4()
    ensures
        tag_of("Decimal64"@) is Decimal64,
        is_tidy("Decimal64"@),
        tag_of("Decimal128"@) is Decimal128,
        is_tidy("Decimal128"@),
        tag_of("Decimal256"@) is Decimal256,
        is_tidy("Decimal256"@),
        tag_of("UUID"@) is UUID,
        is_tidy("UUID"@),
        tag_of("IPv4"@) is IPv4,
        is_tidy("IPv4"@),
        tag_of("IPv6"@) is IPv6,
        is_tidy("IPv6"@),
{
    lemma_letters();
}

proof fn lemma_tags_5()
    ensures
        tag_of("Array"@) is Array,
        is_tidy("Array"@),
        tag_of("Map"@) is Mapping,
        is_tidy("Map"@),
        tag_of("JSON"@) is JSON,
        is_tidy("JSON"@),
{
    lemma_letters();
}

/// A base name of the row encoder stands for the type of that name.
pub proof fn law_base_names_mean_their_types()
    ensures
        tag_of("String"@) is String,
        tag_of("FixedString"@) is FixedString,
        tag_of("Bool"@) is Bool,
        tag_of("UInt8"@) is UInt8,
        tag_of("UInt16"@) is UInt16,
        tag_of("UInt32"@) is UInt32,
        tag_of("UInt64"@) is UInt64,
        tag_of("UInt128"@) is UInt128,
        tag_of("UInt256"@) is UInt256,
        tag_of("Int8"@) is Int8,
        tag_of("Int16"@) is Int16,
        tag_of("Int32"@) is Int32,
        tag_of("Int64"@) is Int64,
        tag_of("Int128"@) is Int128,
        tag_of("Int256"@) is Int256,
        tag_of("Enum8"@) is Enum8,
        tag_of("Enum16"@) is Enum16,
        tag_of("Float32"@) is Float32,
        tag_of("Float64"@) is Float64,
        tag_of("Date"@) is Date,
        tag_of("Date32"@) is Date32,
        tag_of("DateTime"@) is DateTime,
        tag_of("DateTime64"@) is DateTime64,
        tag_of("Decimal32"@) is Decimal32,
        tag_of("Decimal64"@) is Decimal64,
        tag_of("Decimal128"@) is Decimal128,
        tag_of("Decimal256"@) is Decimal256,
        tag_of("UUID"@) is UUID,
        tag_of("IPv4"@) is IPv4,
        tag_of("IPv6"@) is IPv6,
        tag_of("Array"@) is Array,
        tag_of("Map"@) is Mapping,
        tag_of("JSON"@) is JSON,
{
    lemma_tags_0();
    lemma_tags_1();
    lemma_tags_2();
    lemma_tags_3();
    lemma_tags_4();
    lemma_tags_5();
}

proof fn lemma_bare_0()
    ensures
        plain_type("Bool"@) == Some(Ty::UInt8),
        plain_type("UInt8"@) == Some(Ty::UInt8),
        plain_type("UInt16"@) == Some(Ty::UInt16),
        plain_type("UInt32"@) == Some(Ty::UInt32),
        plain_type("UInt64"@) == Some(Ty::UInt64),
        plain_type("Int8"@) == Some(Ty::Int8),
        plain_type("Int16"@) == Some(Ty::Int16),
{
    lemma_letters();
}

proof fn lemma_bare_1()
    ensures
        plain_type("Int32"@) == Some(Ty::Int32),
        plain_type("Int64"@) == Some(Ty::Int64),
        plain_type("Int128"@) == Some(Ty::Int128),
        plain_type("UInt128"@) == Some(Ty::UInt128),
        plain_type("Int256"@) == Some(Ty::Int256),
        plain_type("UInt256"@) == Some(Ty::UInt256),
        plain_type("Float32"@) == Some(Ty::Float32),
{
    lemma_letters();
}

proof fn lemma_bare_2()
    ensures
        plain_type("Float64"@) == Some(Ty::Float64),
        plain_type("BFloat16"@) == Some(Ty::BFloat16),
        plain_type("String"@) == Some(Ty::String),
        plain_type("UUID"@) == Some(Ty::Uuid),
        plain_type("IPv4"@) == Some(Ty::IPv4),
        plain_type("IPv6"@) == Some(Ty::IPv6),
        plain_type("Date"@) == Some(Ty::Date),
{
    lemma_letters();
}

proof fn lemma_bare_3()
    ensures
        plain_type("Date32"@) == Some(Ty::Date32),
        plain_type("DateTime"@) == Some(Ty::DateTime),
        plain_type("Time"@) == Some(Ty::Time),
        plain_type("JSON"@) == Some(Ty::NewJson),
        plain_type("Dynamic"@) == Some(Ty::Dynamic),
        plain_type("Object('json')"@) == Some(Ty::Json),
        plain_type("Point"@) == Some(Ty::Point),
{
    lemma_letters();
}

/// A bare name of the block encoder stands for the type of that name; `Bool` is
/// a byte, and the legacy `Object('json')` a string.
pub proof fn law_bare_names_mean_their_types()
    ensures
        plain_type("Bool"@) == Some(Ty::UInt8),
        plain_type("UInt8"@) == Some(Ty::UInt8),
        plain_type("UInt16"@) == Some(Ty::UInt16),
        plain_type("UInt32"@) == Some(Ty::UInt32),
        plain_type("UInt64"@) == Some(Ty::UInt64),
        plain_type("Int8"@) == Some(Ty::Int8),
        plain_type("Int16"@) == Some(Ty::Int16),
        plain_type("Int32"@) == Some(Ty::Int32),
        plain_type("Int64"@) == Some(Ty::Int64),
        plain_type("Int128"@) == Some(Ty::Int128),
        plain_type("UInt128"@) == Some(Ty::UInt128),
        plain_type("Int256"@) == Some(Ty::Int256),
        plain_type("UInt256"@) == Some(Ty::UInt256),
        plain_type("Float32"@) == Some(Ty::Float32),
        plain_type("Float64"@) == Some(Ty::Float64),
        plain_type("BFloat16"@) == Some(Ty::BFloat16),
        plain_type("String"@) == Some(Ty::String),
        plain_type("UUID"@) == Some(Ty::Uuid),
        plain_type("IPv4"@) == Some(Ty::IPv4),
        plain_type("IPv6"@) == Some(Ty::IPv6),
        plain_type("Date"@) == Some(Ty::Date),
        plain_type("Date32"@) == Some(Ty::Date32),
        plain_type("DateTime"@) == Some(Ty::DateTime),
        plain_type("Time"@) == Some(Ty::Time),
        plain_type("JSON"@) == Some(Ty::NewJson),
        plain_type("Dynamic"@) == Some(Ty::Dynamic),
        plain_type("Object('json')"@) == Some(Ty::Json),
        plain_type("Point"@) == Some(Ty::Point),
{
    lemma_bare_0();
    lemma_bare_1();
    lemma_bare_2();
    lemma_bare_3();
}

// ---------------------------------------------------------------------------
// Base names
// ---------------------------------------------------------------------------

/// Whether `t` is `name` with arguments.
pub open spec fn is_called(t: Seq<char>, name: Seq<char>) -> bool {
    has_prefix(t, name) && t.len() > name.len() && t[name.len() as int] == '('
}

proof fn lemma_open_at(t: Seq<char>, name: Seq<char>, from: nat)
    requires
        is_called(t, name),
        forall|i: int| 0 <= i < name.len() ==> #[trigger] name[i] != '(',
        from <= name.len(),
    ensures
        open_at(t, from) == name.len(),
    decreases name.len() - from,
{
    if from < name.len() {
        assert(t.take(name.len() as int)[from as int] == t[from as int]);
        assert(name[from as int] != '(');
        lemma_open_at(t, name, from + 1);
    }
}

proof fn lemma_open_none(t: Seq<char>, from: nat)
    requires
        forall|i: int| 0 <= i < t.len() ==> #[trigger] t[i] != '(',
        from <= t.len(),
    ensures
        open_at(t, from) == t.len(),
    decreases t.len() - from,
{
    if from < t.len() {
        lemma_open_none(t, from + 1);
    }
}

/// A type that begins with another letter is wrapped in neither.
proof fn lemma_unwrapped(t: Seq<char>)
    requires
        t.len() > 0,
        t[0] != 'L',
        t[0] != 'N',
    ensures
        outer(t, "LowCardinality"@) is None,
        outer(t, "Nullable"@) is None,
{
    lemma_letters();
    if has_prefix(t, "LowCardinality"@) {
        assert(t.take(14)[0] == t[0]);
    }
    if has_prefix(t, "Nullable"@) {
        assert(t.take(8)[0] == t[0]);
    }
}

/// The base name of a type with arguments.
pub proof fn lemma_called(t: Seq<char>, name: Seq<char>)
    requires
        is_called(t, name),
        name.len() > 0,
        name[0] != 'L',
        name[0] != 'N',
        forall|i: int| 0 <= i < name.len() ==> #[trigger] name[i] != '(',
    ensures
        base_of(t) == name,
        outer(t, "LowCardinality"@) is None,
        outer(t, "Nullable"@) is None,
{
    lemma_open_at(t, name, 0);
    assert(t.take(name.len() as int)[0] == t[0]);
    lemma_unwrapped(t);
}

/// The base name of a type without arguments.
proof fn lemma_bare(t: Seq<char>)
    requires
        t.len() > 0,
        t[0] != 'L',
        t[0] != 'N',
        forall|i: int| 0 <= i < t.len() ==> #[trigger] t[i] != '(',
    ensures
        base_of(t) == t,
        outer(t, "LowCardinality"@) is None,
        outer(t, "Nullable"@) is None,
{
    lemma_open_none(t, 0);
    assert(t.take(t.len() as int) =~= t);
    lemma_unwrapped(t);
}

// ---------------------------------------------------------------------------
// Types without arguments
// ---------------------------------------------------------------------------

proof fn lemma_plain_types_0()
    ensures
        plain_type("Bool"@) == Some(Ty::UInt8),
        plain_type("UInt8"@) == Some(Ty::UInt8),
        plain_type("UInt16"@) == Some(Ty::UInt16),
        plain_type("UInt32"@) == Some(Ty::UInt32),
{
    lemma_letters();
}

proof fn lemma_plain_agrees_0(s: Seq<char>)
    requires
        ({
            let t = trim(s, Strip::White);
            t == "Bool"@ || t == "UInt8"@ || t == "UInt16"@ || t == "UInt32"@
        }),
        plain_type(trim(s, Strip::White)) is Some,
    ensures
        describes(parsed_type(s), plain_type(trim(s, Strip::White))->Some_0),
{
    let t = trim(s, Strip::White);
    lemma_plain_types_0();
    lemma_tags_0();
    lemma_bare(t);
}

proof fn lemma_plain_types_1()
    ensures
        plain_type("UInt64"@) == Some(Ty::UInt64),
        plain_type("Int8"@) == Some(Ty::Int8),
        plain_type("Int16"@) == Some(Ty::Int16),
        plain_type("Int32"@) == Some(Ty::Int32),
{
    lemma_letters();
}

proof fn lemma_plain_agrees_1(s: Seq<char>)
    requires
        ({
            let t = trim(s, Strip::White);
            t == "UInt64"@ || t == "Int8"@ || t == "Int16"@ || t == "Int32"@
        }),
        plain_type(trim(s, Strip::White)) is Some,
    ensures
        describes(parsed_type(s), plain_type(trim(s, Strip::White))->Some_0),
{
    let t = trim(s, Strip::White);
    lemma_plain_types_1();
    lemma_tags_1();
    lemma_bare(t);
}

proof fn lemma_plain_types_2()
    ensures
        plain_type("Int64"@) == Some(Ty::Int64),
        plain_type("Int128"@) == Some(Ty::Int128),
        plain_type("UInt128"@) == Some(Ty::UInt128),
        plain_type("Int256"@) == Some(Ty::Int256),
{
    lemma_letters();
}

proof fn lemma_plain_agrees_2(s: Seq<char>)
    requires
        ({
            let t = trim(s, Strip::White);
            t == "Int64"@ || t == "Int128"@ || t == "UInt128"@ || t == "Int256"@
        }),
        plain_type(trim(s, Strip::White)) is Some,
    ensures
        describes(parsed_type(s), plain_type(trim(s, Strip::White))->Some_0),
{
    let t = trim(s, Strip::White);
    lemma_plain_types_2();
    lemma_tags_1();
    lemma_tags_2();
    lemma_bare(t);
}

proof fn lemma_plain_types_3()
    ensures
        plain_type("UInt256"@) == Some(Ty::UInt256),
        plain_type("Float32"@) == Some(Ty::Float32),
        plain_type("Float64"@) == Some(Ty::Float64),
        plain_type("String"@) == Some(Ty::String),
{
    lemma_letters();
}

proof fn lemma_plain_agrees_3(s: Seq<char>)
    requires
        ({
            let t = trim(s, Strip::White);
            t == "UInt256"@ || t == "Float32"@ || t == "Float64"@ || t == "String"@
        }),
        plain_type(trim(s, Strip::White)) is Some,
    ensures
        describes(parsed_type(s), plain_type(trim(s, Strip::White))->Some_0),
{
    let t = trim(s, Strip::White);
    lemma_plain_types_3();
    lemma_tags_0();
    lemma_tags_1();
    lemma_tags_2();
    lemma_tags_3();
    lemma_bare(t);
}

proof fn lemma_plain_types_4()
    ensures
        plain_type("UUID"@) == Some(Ty::Uuid),
        plain_type("IPv4"@) == Some(Ty::IPv4),
        plain_type("IPv6"@) == Some(Ty::IPv6),
        plain_type("Date"@) == Some(Ty::Date),
{
    lemma_letters();
}

proof fn lemma_plain_agrees_4(s: Seq<char>)
    requires
        ({
            let t = trim(s, Strip::White);
            t == "UUID"@ || t == "IPv4"@ || t == "IPv6"@ || t == "Date"@
        }),
        plain_type(trim(s, Strip::White)) is Some,
    ensures
        describes(parsed_type(s), plain_type(trim(s, Strip::White))->Some_0),
{
    let t = trim(s, Strip::White);
    lemma_plain_types_4();
    lemma_tags_3();
    lemma_tags_4();
    lemma_bare(t);
}

proof fn lemma_plain_types_5()
    ensures
        plain_type("Date32"@) == Some(Ty::Date32),
        plain_type("DateTime"@) == Some(Ty::DateTime),
        plain_type("JSON"@) == Some(Ty::NewJson),
{
    lemma_letters();
}

proof fn lemma_plain_agrees_5(s: Seq<char>)
    requires
        ({
            let t = trim(s, Strip::White);
            t == "Date32"@ || t == "DateTime"@ || t == "JSON"@
        }),
        plain_type(trim(s, Strip::White)) is Some,
    ensures
        describes(parsed_type(s), plain_type(trim(s, Strip::White))->Some_0),
{
    let t = trim(s, Strip::White);
    lemma_plain_types_5();
    lemma_tags_3();
    lemma_tags_5();
    lemma_bare(t);
}

/// The types that the row encoder writes: those of fixed width but for three,
/// strings, JSON, and nullables, arrays and string-keyed maps of these. A
/// nullable holds no other nullable.
pub open spec fn writable(t: Ty) -> bool
    decreases t,
{
    match t {
        Ty::Nullable(x) => writable(*x) && !is_marked(*x),
        Ty::LowCardinality(x) => writable(*x),
        Ty::Array(x) => writable(*x),
        Ty::Mapping(k, v) => is_text(*k) && writable(*v),
        Ty::String => true,
        Ty::NewJson => true,
        Ty::BFloat16 => false,
        Ty::Time => false,
        Ty::Time64 => false,
        _ => fixed_size(t) is Some,
    }
}

/// Whether a type is nullable as it stands.
pub open spec fn is_marked(t: Ty) -> bool
    decreases t,
{
    match t {
        Ty::Nullable(_) => true,
        Ty::LowCardinality(x) => is_marked(*x),
        _ => false,
    }
}

proof fn lemma_plain_agrees(s: Seq<char>)
    requires
        plain_type(trim(s, Strip::White)) matches Some(ty) && writable(ty),
    ensures
        describes(parsed_type(s), plain_type(trim(s, Strip::White))->Some_0),
{
    let t = trim(s, Strip::White);
    if t == "Bool"@ || t == "UInt8"@ || t == "UInt16"@ || t == "UInt32"@ {
        lemma_plain_agrees_0(s);
    } else if t == "UInt64"@ || t == "Int8"@ || t == "Int16"@ || t == "Int32"@ {
        lemma_plain_agrees_1(s);
    } else if t == "Int64"@ || t == "Int128"@ || t == "UInt128"@ || t == "Int256"@ {
        lemma_plain_agrees_2(s);
    } else if t == "UInt256"@ || t == "Float32"@ || t == "Float64"@ || t == "String"@ {
        lemma_plain_agrees_3(s);
    } else if t == "UUID"@ || t == "IPv4"@ || t == "IPv6"@ || t == "Date"@ {
        lemma_plain_agrees_4(s);
    } else if t == "Date32"@ || t == "DateTime"@ || t == "JSON"@ {
        lemma_plain_agrees_5(s);
    }
}

// ---------------------------------------------------------------------------
// Types with arguments
// ---------------------------------------------------------------------------

proof fn lemma_fixedstring_agrees(s: Seq<char>)
    requires
        is_called(trim(s, Strip::White), "FixedString"@),
    ensures
        ({
            let p = parsed_type(s);
            &&& !p.nullable
            &&& resolved(p) is FixedString
            &&& p.base == "FixedString"@
        }),
{
    lemma_tags_0();
    lemma_called(trim(s, Strip::White), "FixedString"@);
}

proof fn lemma_datetime64_agrees(s: Seq<char>)
    requires
        is_called(trim(s, Strip::White), "DateTime64"@),
    ensures
        ({
            let p = parsed_type(s);
            &&& !p.nullable
            &&& resolved(p) is DateTime64
            &&& p.base == "DateTime64"@
        }),
{
    lemma_tags_3();
    lemma_called(trim(s, Strip::White), "DateTime64"@);
}

proof fn lemma_datetime_agrees(s: Seq<char>)
    requires
        is_called(trim(s, Strip::White), "DateTime"@),
    ensures
        ({
            let p = parsed_type(s);
            &&& !p.nullable
            &&& resolved(p) is DateTime
            &&& p.base == "DateTime"@
        }),
{
    lemma_tags_3();
    lemma_called(trim(s, Strip::White), "DateTime"@);
}

proof fn lemma_decimal32_agrees(s: Seq<char>)
    requires
        is_called(trim(s, Strip::White), "Decimal32"@),
    ensures
        ({
            let p = parsed_type(s);
            &&& !p.nullable
            &&& resolved(p) is Decimal32
            &&& p.base == "Decimal32"@
        }),
{
    lemma_tags_3();
    lemma_called(trim(s, Strip::White), "Decimal32"@);
}

proof fn lemma_decimal64_agrees(s: Seq<char>)
    requires
        is_called(trim(s, Strip::White), "Decimal64"@),
    ensures
        ({
            let p = parsed_type(s);
            &&& !p.nullable
            &&& resolved(p) is Decimal64
            &&& p.base == "Decimal64"@
        }),
{
    lemma_tags_4();
    lemma_called(trim(s, Strip::White), "Decimal64"@);
}

proof fn lemma_decimal128_agrees(s: Seq<char>)
    requires
        is_called(trim(s, Strip::White), "Decimal128"@),
    ensures
        ({
            let p = parsed_type(s);
            &&& !p.nullable
            &&& resolved(p) is Decimal128
            &&& p.base == "Decimal128"@
        }),
{
    lemma_tags_4();
    lemma_called(trim(s, Strip::White), "Decimal128"@);
}

proof fn lemma_decimal256_agrees(s: Seq<char>)
    requires
        is_called(trim(s, Strip::White), "Decimal256"@),
    ensures
        ({
            let p = parsed_type(s);
            &&& !p.nullable
            &&& resolved(p) is Decimal256
            &&& p.base == "Decimal256"@
        }),
{
    lemma_tags_4();
    lemma_called(trim(s, Strip::White), "Decimal256"@);
}

proof fn lemma_enum8_agrees(s: Seq<char>)
    requires
        is_called(trim(s, Strip::White), "Enum8"@),
    ensures
        ({
            let p = parsed_type(s);
            &&& !p.nullable
            &&& resolved(p) is Enum8
            &&& p.base == "Enum8"@
        }),
{
    lemma_tags_2();
    lemma_called(trim(s, Strip::White), "Enum8"@);
}

proof fn lemma_enum16_agrees(s: Seq<char>)
    requires
        is_called(trim(s, Strip::White), "Enum16"@),
    ensures
        ({
            let p = parsed_type(s);
            &&& !p.nullable
            &&& resolved(p) is Enum16
            &&& p.base == "Enum16"@
        }),
{
    lemma_tags_2();
    lemma_called(trim(s, Strip::White), "Enum16"@);
}

proof fn lemma_array_agrees(s: Seq<char>)
    requires
        is_called(trim(s, Strip::White), "Array"@),
    ensures
        ({
            let p = parsed_type(s);
            &&& !p.nullable
            &&& resolved(p) is Array
            &&& p.base == "Array"@
        }),
{
    lemma_tags_5();
    lemma_called(trim(s, Strip::White), "Array"@);
}

proof fn lemma_map_agrees(s: Seq<char>)
    requires
        is_called(trim(s, Strip::White), "Map"@),
    ensures
        ({
            let p = parsed_type(s);
            &&& !p.nullable
            &&& resolved(p) is Mapping
            &&& p.base == "Map"@
        }),
{
    lemma_tags_5();
    lemma_called(trim(s, Strip::White), "Map"@);
}

/// The prefixes that end in a parenthesis.
proof fn lemma_prefixes(t: Seq<char>)
    ensures
        has_prefix(t, "DateTime("@) ==> is_called(t, "DateTime"@),
        has_prefix(t, "Enum8("@) ==> is_called(t, "Enum8"@),
        has_prefix(t, "Enum16("@) ==> is_called(t, "Enum16"@),
{
    reveal_strlit("DateTime(");
    reveal_strlit("Enum8(");
    reveal_strlit("Enum16(");
    lemma_letters();
    if has_prefix(t, "DateTime("@) {
        let u = t.take(9);
        assert(u[8] == t[8]);
        assert(t.take(8) =~= u.take(8));
        assert(u.take(8) =~= "DateTime"@);
    }
    if has_prefix(t, "Enum8("@) {
        let u = t.take(6);
        assert(u[5] == t[5]);
        assert(t.take(5) =~= u.take(5));
        assert(u.take(5) =~= "Enum8"@);
    }
    if has_prefix(t, "Enum16("@) {
        let u = t.take(7);
        assert(u[6] == t[6]);
        assert(t.take(6) =~= u.take(6));
        assert(u.take(6) =~= "Enum16"@);
    }
}

proof fn lemma_no_cut(s: Seq<char>, n: nat)
    requires
        n <= s.len(),
        forall|i: int| 0 <= i < s.len() ==> #[trigger] s[i] != ',',
    ensures
        pieces(s, n) == Seq::<Seq<char>>::empty(),
        piece_start(s, n) == 0,
    decreases n,
{
    if n > 0 {
        lemma_no_cut(s, (n - 1) as nat);
        assert(s[n - 1] != ',');
    }
}

/// A number is the only argument of its list.
proof fn lemma_number_arg(s: Seq<char>, hi: int)
    requires
        parse_within(s, false, 0, hi) is Some,
    ensures
        type_args(s) == seq![s],
{
    let plus = s.len() > 0 && s[0] == '+';
    let body = if plus {
        s.skip(1)
    } else {
        s
    };
    assert(all_digits(body) && body.len() > 0);
    assert forall|i: int| 0 <= i < s.len() implies #[trigger] s[i] != ',' && !is_white(s[i]) by {
        if plus && i > 0 {
            assert(body[i - 1] == s[i]);
            assert('0' <= body[i - 1] <= '9');
        } else if !plus {
            assert('0' <= body[i] <= '9');
        }
    }
    lemma_no_cut(s, s.len());
    assert(s.skip(0) =~= s);
    assert(!is_white(s[0]));
    assert(!is_white(s[s.len() - 1]));
    assert(trim(s, Strip::White) == s);
    assert(type_args(s) =~= seq![s]);
}

proof fn lemma_fixed_string_agrees(s: Seq<char>, inner: Seq<char>, n: int)
    requires
        outer(trim(s, Strip::White), "FixedString"@) == Some(inner),
        parse_within(inner, false, 0, usize::MAX as int) == Some(n),
    ensures
        describes(parsed_type(s), Ty::FixedString(n as usize)),
{
    lemma_fixedstring_agrees(s);
    lemma_tags_0();
    lemma_called(trim(s, Strip::White), "FixedString"@);
    lemma_number_arg(inner, usize::MAX as int);
    let p = parsed_type(s);
    assert(args_of(trim(s, Strip::White)) == seq![inner]);
    assert(p.fixed_size == Some(n as usize));
}

proof fn lemma_decimal_agrees(s: Seq<char>, inner: Seq<char>)
    requires
        outer(trim(s, Strip::White), "Decimal"@) == Some(inner),
        decimal_type(type_args(inner)) is Some,
    ensures
        describes(
            parsed_type(s),
            decimal_type(type_args(inner))->Some_0,
        ),
{
    lemma_letters();
    let t = trim(s, Strip::White);
    lemma_called(t, "Decimal"@);
    let p = parsed_type(s);
    assert(p.base == "Decimal"@);
    assert(p.precision == small(type_args(inner)[0]));
    assert(!p.nullable);
}

/// A type that is nullable as it stands is marked, and no other.
proof fn lemma_mark(t: Parsed, ty: Ty)
    requires
        describes(t, ty),
    ensures
        t.nullable == is_marked(ty),
    decreases ty,
{
    if let Ty::LowCardinality(x) = ty {
        lemma_mark(t, *x);
    }
}

proof fn lemma_wrapped_agrees(s: Seq<char>, inner: Seq<char>, x: Ty)
    requires
        describes(parsed_type(inner), x),
    ensures
        outer(trim(s, Strip::White), "LowCardinality"@) == Some(inner) ==> describes(
            parsed_type(s),
            Ty::LowCardinality(Box::new(x)),
        ),
        outer(trim(s, Strip::White), "Nullable"@) == Some(inner) && !is_marked(x) ==> describes(
            parsed_type(s),
            Ty::Nullable(Box::new(x)),
        ),
{
    let t = trim(s, Strip::White);
    lemma_letters();
    lemma_mark(parsed_type(inner), x);
    if outer(t, "Nullable"@) == Some(inner) && !is_marked(x) {
        assert(t.take(8)[0] == t[0]);
        if has_prefix(t, "LowCardinality"@) {
            assert(t.take(14)[0] == t[0]);
        }
        let p = parsed_type(s);
        let q = parsed_type(inner);
        assert(p == Parsed { nullable: true, ..q });
        assert((Parsed { nullable: false, ..p }) == q);
    }
}

proof fn lemma_two_types(args: Seq<Seq<char>>, limit: nat, level: nat)
    requires
        types_of(args, limit, level) matches Some(ts) && ts.len() == 2,
    ensures
        args.len() == 2,
        args[0].len() < limit,
        args[1].len() < limit,
        type_within(args[0], level) == Some(types_of(args, limit, level)->Some_0[0]),
        type_within(args[1], level) == Some(types_of(args, limit, level)->Some_0[1]),
{
    lemma_types_of_len(args, limit, level);
    let one = args.drop_last();
    lemma_types_of_len(one, limit, level);
    let none = one.drop_last();
    lemma_types_of_len(none, limit, level);
    assert(args.last() == args[1]);
    assert(one.last() == args[0]);
    assert(types_of(none, limit, level) == Some(Seq::<Ty>::empty()));
}

proof fn lemma_agrees(s: Seq<char>, level: nat)
    requires
        type_within(s, level) matches Some(ty) && writable(ty),
    ensures
        describes(parsed_type(s), type_within(s, level)->Some_0),
    decreases s.len(),
{
    lemma_trim_len(s, Strip::White);
    let t = trim(s, Strip::White);
    lemma_prefixes(t);
    if let Some(inner) = outer(t, "Nullable"@) {
        lemma_agrees(inner, level + 1);
        lemma_wrapped_agrees(s, inner, type_within(inner, level + 1)->Some_0);
    } else if let Some(inner) = outer(t, "LowCardinality"@) {
        lemma_agrees(inner, level + 1);
        lemma_wrapped_agrees(s, inner, type_within(inner, level + 1)->Some_0);
    } else if let Some(inner) = outer(t, "FixedString"@) {
        let n = parse_within(inner, false, 0, usize::MAX as int)->Some_0;
        lemma_fixed_string_agrees(s, inner, n);
    } else if let Some(inner) = outer(t, "DateTime64"@) {
        lemma_datetime64_agrees(s);
    } else if has_prefix(t, "DateTime("@) {
        lemma_datetime_agrees(s);
    } else if has_prefix(t, "Time64("@) {
    } else if let Some(inner) = outer(t, "Decimal32"@) {
        lemma_decimal32_agrees(s);
    } else if let Some(inner) = outer(t, "Decimal64"@) {
        lemma_decimal64_agrees(s);
    } else if let Some(inner) = outer(t, "Decimal128"@) {
        lemma_decimal128_agrees(s);
    } else if let Some(inner) = outer(t, "Decimal256"@) {
        lemma_decimal256_agrees(s);
    } else if let Some(inner) = outer(t, "Decimal"@) {
        lemma_decimal_agrees(s, inner);
    } else if has_prefix(t, "Enum8("@) {
        lemma_enum8_agrees(s);
    } else if has_prefix(t, "Enum16("@) {
        lemma_enum16_agrees(s);
    } else if let Some(inner) = outer(t, "Array"@) {
        lemma_agrees(inner, level + 1);
        lemma_array_agrees(s);
    } else if let Some(inner) = outer(t, "Tuple"@) {
    } else if let Some(inner) = outer(t, "Map"@) {
        let args = type_args(inner);
        lemma_two_types(args, s.len(), level + 1);
        lemma_agrees(args[1], level + 1);
        lemma_map_agrees(s);
    } else if has_prefix(t, "SimpleAggregateFunction("@) {
    } else if let Some(inner) = outer(t, "Variant"@) {
    } else if has_prefix(t, "Dynamic("@) {
    } else {
        lemma_plain_agrees(s);
    }
}

/// Wherever the row encoder writes a type, it writes what the block encoder
/// reads: both take a type string the same way.
pub proof fn law_type_strings_agree(s: Seq<char>)
    requires
        type_of(s) matches Some(ty) && writable(ty),
    ensures
        describes(parsed_type(s), type_of(s)->Some_0),
{
    lemma_agrees(s, 0);
}

proof fn lemma_header_types(headers: Seq<(Seq<char>, Seq<char>)>)
    ensures
        header_columns(headers) matches Ok(native) ==> native.len() == headers.len() && forall|i: int|
            0 <= i < headers.len() ==> type_of(headers[i].1) == Some((#[trigger] native[i]).ty),
    decreases headers.len(),
{
    if headers.len() > 0 {
        lemma_header_types(headers.drop_last());
        assert(headers.last() == headers[headers.len() - 1]);
    }
}

/// A row that the dynamic encoder writes for columns as `system.columns`
/// describes them splits, to its last byte, into the cells of the Native block
/// headers of those columns. Raw bytes stand for a string or JSON column.
pub proof fn law_rows_suit_their_headers(
    row: Seq<(Seq<char>, Json)>,
    columns: Seq<ColumnView>,
    raw: Option<(Seq<char>, Seq<u8>)>,
    native: Seq<SchemaView>,
    a: AnswersView,
    b: Seq<u8>,
)
    requires
        forall|i: int|
            0 <= i < columns.len() ==> (#[trigger] columns[i]).ty == parsed_type(
                columns[i].type_string,
            ),
        header_columns(headers(columns)) == Ok::<Seq<SchemaView>, ErrorView>(native),
        forall|i: int| 0 <= i < native.len() ==> writable((#[trigger] native[i]).ty),
        raw matches Some((name, _)) ==> forall|i: int|
            0 <= i < columns.len() && (#[trigger] columns[i]).name == name ==> (
            if columns[i].ty.nullable {
                native[i].ty matches Ty::Nullable(x) && (is_text(*x) || *x is NewJson)
            } else {
                is_text(native[i].ty) || native[i].ty is NewJson
            }),
        row_countable(row),
        sound(a),
        row_wire(row, columns, raw, a) == Ok::<Seq<u8>, DynamicErrorView>(b),
        b.len() <= u64::MAX,
    ensures
        row_of(column_tys(native))(b) == Ok::<Seq<Seq<u8>>, ErrorView>(
            row_cells(row, columns, raw, a),
        ),
{
    let tys = column_tys(native);
    lemma_header_types(headers(columns));
    assert forall|i: int| 0 <= i < columns.len() implies column_describes(
        #[trigger] columns[i],
        raw,
        tys[i],
    ) by {
        assert(headers(columns)[i].1 == columns[i].type_string);
        assert(writable(native[i].ty));
        law_type_strings_agree(columns[i].type_string);
    }
    law_rows_suit_blocks(row, columns, raw, tys, a, b);
}

} // verus!
