//! ClickHouse type strings as the row encoder reads them.

use vstd::prelude::*;
use vstd::string::*;

use crate::native::columns::{
    lemma_type_args_len, outer, small, small_number, split_type_args, strip_outer, texts, type_args,
};
use crate::text::{
    chars_of, lemma_trim_len, parse_unsigned, parse_within, spells, text_of, trim, trimmed, Strip,
};

verus! {

/// What a type is, by its base name.
#[derive(Debug, Clone, Copy, PartialEq, Eq, Structural)]
pub enum TypeTag {
    String,
    FixedString,
    Bool,
    UInt8,
    UInt16,
    UInt32,
    UInt64,
    UInt128,
    UInt256,
    Int8,
    Int16,
    Int32,
    Int64,
    Int128,
    Int256,
    Enum8,
    Enum16,
    Float32,
    Float64,
    Date,
    Date32,
    DateTime,
    DateTime64,
    Decimal32,
    Decimal64,
    Decimal128,
    Decimal256,
    UUID,
    IPv4,
    IPv6,
    Array,
    Mapping,
    JSON,
    Point,
    Tuple,
    Unknown,
}

/// A type string taken apart: `LowCardinality` and `Nullable` wrappers are
/// removed, and the second of them leaves its mark.
#[derive(Debug)]
pub struct ParsedType {
    /// The type string without the wrappers.
    pub raw: String,
    /// The name before the arguments.
    pub base: String,
    /// What the base name stands for; a bare `Decimal` is `Unknown`.
    pub tag: TypeTag,
    /// Whether the type was wrapped in `Nullable`.
    pub nullable: bool,
    /// `P` of `Decimal(P, S)` and `DateTime64(P)`.
    pub precision: Option<u8>,
    /// `S` of `Decimal(P, S)` and `Decimal64(S)` and the like.
    pub scale: Option<u8>,
    /// `N` of `FixedString(N)`.
    pub fixed_size: Option<usize>,
    /// `T` of `Array(T)`.
    pub array_element: Option<Box<ParsedType>>,
    /// `K` and `V` of `Map(K, V)`.
    pub map_types: Option<(Box<ParsedType>, Box<ParsedType>)>,
}

/// The mathematical value of a [`ParsedType`].
pub struct Parsed {
    pub raw: Seq<char>,
    pub base: Seq<char>,
    pub tag: TypeTag,
    pub nullable: bool,
    pub precision: Option<u8>,
    pub scale: Option<u8>,
    pub fixed_size: Option<usize>,
    pub array_element: Option<Box<Parsed>>,
    pub map_types: Option<(Box<Parsed>, Box<Parsed>)>,
}

/// Whether values of the type hold JSON: the type is JSON, or one of its parts
/// does.
pub open spec fn uses_json(t: Parsed) -> bool
    decreases t,
{
    ||| t.tag is JSON
    ||| match t.array_element {
        Some(x) => uses_json(*x),
        None => false,
    }
    ||| match t.map_types {
        Some((k, v)) => uses_json(*k) || uses_json(*v),
        None => false,
    }
}

impl ParsedType {
    /// Whether values of this type hold JSON.
    pub(crate) fn holds_json(&self) -> (yes: bool)
        ensures
            yes == uses_json(self@),
        decreases self,
    {
        if self.tag == TypeTag::JSON {
            return true;
        }
        if let Some(x) = &self.array_element {
            if x.holds_json() {
                return true;
            }
        }
        match &self.map_types {
            Some((k, v)) => k.holds_json() || v.holds_json(),
            None => false,
        }
    }
}

impl ParsedType {
    /// The mathematical value.
    pub open spec fn parsed(self) -> Parsed
        decreases self,
    {
        Parsed {
            raw: self.raw@,
            base: self.base@,
            tag: self.tag,
            nullable: self.nullable,
            precision: self.precision,
            scale: self.scale,
            fixed_size: self.fixed_size,
            array_element: match self.array_element {
                Some(x) => Some(Box::new(x.parsed())),
                None => None,
            },
            map_types: match self.map_types {
                Some((k, v)) => Some((Box::new(k.parsed()), Box::new(v.parsed()))),
                None => None,
            },
        }
    }
}

impl View for ParsedType {
    type V = Parsed;

    open spec fn view(&self) -> Parsed {
        self.parsed()
    }
}

/// What a base name stands for.
pub open spec fn tag_of(base: Seq<char>) -> TypeTag {
    if base == "String"@ {
        TypeTag::String
    } else if base == "FixedString"@ {
        TypeTag::FixedString
    } else if base == "Bool"@ {
        TypeTag::Bool
    } else if base == "UInt8"@ {
        TypeTag::UInt8
    } else if base == "UInt16"@ {
        TypeTag::UInt16
    } else if base == "UInt32"@ {
        TypeTag::UInt32
    } else if base == "UInt64"@ {
        TypeTag::UInt64
    } else if base == "UInt128"@ {
        TypeTag::UInt128
    } else if base == "UInt256"@ {
        TypeTag::UInt256
    } else if base == "Int8"@ {
        TypeTag::Int8
    } else if base == "Int16"@ {
        TypeTag::Int16
    } else if base == "Int32"@ {
        TypeTag::Int32
    } else if base == "Int64"@ {
        TypeTag::Int64
    } else if base == "Int128"@ {
        TypeTag::Int128
    } else if base == "Int256"@ {
        TypeTag::Int256
    } else if base == "Enum8"@ {
        TypeTag::Enum8
    } else if base == "Enum16"@ {
        TypeTag::Enum16
    } else if base == "Float32"@ {
        TypeTag::Float32
    } else if base == "Float64"@ {
        TypeTag::Float64
    } else if base == "Date"@ {
        TypeTag::Date
    } else if base == "Date32"@ {
        TypeTag::Date32
    } else if base == "DateTime"@ {
        TypeTag::DateTime
    } else if base == "DateTime64"@ {
        TypeTag::DateTime64
    } else if base == "Decimal32"@ {
        TypeTag::Decimal32
    } else if base == "Decimal64"@ {
        TypeTag::Decimal64
    } else if base == "Decimal128"@ {
        TypeTag::Decimal128
    } else if base == "Decimal256"@ {
        TypeTag::Decimal256
    } else if base == "UUID"@ {
        TypeTag::UUID
    } else if base == "IPv4"@ {
        TypeTag::IPv4
    } else if base == "IPv6"@ {
        TypeTag::IPv6
    } else if base == "Array"@ {
        TypeTag::Array
    } else if base == "Map"@ {
        TypeTag::Mapping
    } else if base == "JSON"@ {
        TypeTag::JSON
    } else if base == "Point"@ {
        TypeTag::Point
    } else if base == "Tuple"@ {
        TypeTag::Tuple
    } else {
        TypeTag::Unknown
    }
}

fn tag_named(base: &[char]) -> (tag: TypeTag)
    ensures
        tag == tag_of(base@),
{
    if spells(base, "String") {
        TypeTag::String
    } else if spells(base, "FixedString") {
        TypeTag::FixedString
    } else if spells(base, "Bool") {
        TypeTag::Bool
    } else if spells(base, "UInt8") {
        TypeTag::UInt8
    } else if spells(base, "UInt16") {
        TypeTag::UInt16
    } else if spells(base, "UInt32") {
        TypeTag::UInt32
    } else if spells(base, "UInt64") {
        TypeTag::UInt64
    } else if spells(base, "UInt128") {
        TypeTag::UInt128
    } else if spells(base, "UInt256") {
        TypeTag::UInt256
    } else if spells(base, "Int8") {
        TypeTag::Int8
    } else if spells(base, "Int16") {
        TypeTag::Int16
    } else if spells(base, "Int32") {
        TypeTag::Int32
    } else if spells(base, "Int64") {
        TypeTag::Int64
    } else if spells(base, "Int128") {
        TypeTag::Int128
    } else if spells(base, "Int256") {
        TypeTag::Int256
    } else if spells(base, "Enum8") {
        TypeTag::Enum8
    } else if spells(base, "Enum16") {
        TypeTag::Enum16
    } else if spells(base, "Float32") {
        TypeTag::Float32
    } else if spells(base, "Float64") {
        TypeTag::Float64
    } else if spells(base, "Date") {
        TypeTag::Date
    } else if spells(base, "Date32") {
        TypeTag::Date32
    } else if spells(base, "DateTime") {
        TypeTag::DateTime
    } else if spells(base, "DateTime64") {
        TypeTag::DateTime64
    } else if spells(base, "Decimal32") {
        TypeTag::Decimal32
    } else if spells(base, "Decimal64") {
        TypeTag::Decimal64
    } else if spells(base, "Decimal128") {
        TypeTag::Decimal128
    } else if spells(base, "Decimal256") {
        TypeTag::Decimal256
    } else if spells(base, "UUID") {
        TypeTag::UUID
    } else if spells(base, "IPv4") {
        TypeTag::IPv4
    } else if spells(base, "IPv6") {
        TypeTag::IPv6
    } else if spells(base, "Array") {
        TypeTag::Array
    } else if spells(base, "Map") {
        TypeTag::Mapping
    } else if spells(base, "JSON") {
        TypeTag::JSON
    } else if spells(base, "Point") {
        TypeTag::Point
    } else if spells(base, "Tuple") {
        TypeTag::Tuple
    } else {
        TypeTag::Unknown
    }
}

/// Where the first parenthesis opens, or the end.
pub open spec fn open_at(s: Seq<char>, from: nat) -> nat
    decreases s.len() - from,
{
    if from >= s.len() || s[from as int] == '(' {
        from
    } else {
        open_at(s, from + 1)
    }
}

/// The name before the arguments of a type.
pub open spec fn base_of(s: Seq<char>) -> Seq<char> {
    s.take(open_at(s, 0) as int)
}

/// The arguments of a type.
pub open spec fn args_of(s: Seq<char>) -> Seq<Seq<char>> {
    match outer(s, base_of(s)) {
        Some(inner) => type_args(inner),
        None => seq![],
    }
}

/// The `u8` that argument `i` spells.
pub open spec fn small_arg(args: Seq<Seq<char>>, i: int) -> Option<u8> {
    if i < args.len() {
        small(args[i])
    } else {
        None
    }
}

/// The precision that a type declares.
pub open spec fn precision_of(base: Seq<char>, args: Seq<Seq<char>>) -> Option<u8> {
    if base == "Decimal"@ || base == "DateTime64"@ {
        small_arg(args, 0)
    } else {
        None
    }
}

/// The scale that a type declares.
pub open spec fn scale_of(base: Seq<char>, args: Seq<Seq<char>>) -> Option<u8> {
    if base == "Decimal"@ {
        small_arg(args, 1)
    } else if base == "Decimal32"@ || base == "Decimal64"@ || base == "Decimal128"@ || base
        == "Decimal256"@ {
        small_arg(args, 0)
    } else {
        None
    }
}

/// The byte length that a type declares.
pub open spec fn fixed_of(base: Seq<char>, args: Seq<Seq<char>>) -> Option<usize> {
    if base == "FixedString"@ && args.len() > 0 {
        match parse_within(args[0], false, 0, usize::MAX as int) {
            Some(n) => Some(n as usize),
            None => None,
        }
    } else {
        None
    }
}

/// What a type string says.
pub open spec fn parsed_type(s: Seq<char>) -> Parsed
    decreases s.len(),
{
    proof {
        lemma_trim_len(s, Strip::White);
    }
    let t = trim(s, Strip::White);
    if let Some(inner) = outer(t, "LowCardinality"@) {
        parsed_type(inner)
    } else if let Some(inner) = outer(t, "Nullable"@) {
        Parsed { nullable: true, ..parsed_type(inner) }
    } else {
        let base = base_of(t);
        let args = args_of(t);
        Parsed {
            raw: t,
            base,
            tag: tag_of(base),
            nullable: false,
            precision: precision_of(base, args),
            scale: scale_of(base, args),
            fixed_size: fixed_of(base, args),
            array_element: match outer(t, "Array"@) {
                Some(inner) => Some(Box::new(parsed_type(inner))),
                None => None,
            },
            map_types: match outer(t, "Map"@) {
                Some(inner) => if type_args(inner).len() == 2 && type_args(inner)[0].len() < s.len()
                    && type_args(inner)[1].len() < s.len() {
                    Some(
                        (
                            Box::new(parsed_type(type_args(inner)[0])),
                            Box::new(parsed_type(type_args(inner)[1])),
                        ),
                    )
                } else {
                    None
                },
                None => None,
            },
        }
    }
}

/// How many bytes a value of a type takes, where that is the same for all.
pub open spec fn byte_size(t: Parsed) -> Option<usize> {
    match t.tag {
        TypeTag::Bool
        | TypeTag::UInt8
        | TypeTag::Int8
        | TypeTag::Enum8 => Some(1),
        TypeTag::UInt16
        | TypeTag::Int16
        | TypeTag::Enum16
        | TypeTag::Date => Some(2),
        TypeTag::UInt32
        | TypeTag::Int32
        | TypeTag::Float32
        | TypeTag::Date32
        | TypeTag::DateTime
        | TypeTag::Decimal32
        | TypeTag::IPv4 => Some(4),
        TypeTag::UInt64
        | TypeTag::Int64
        | TypeTag::Float64
        | TypeTag::DateTime64
        | TypeTag::Decimal64 => Some(8),
        TypeTag::UInt128
        | TypeTag::Int128
        | TypeTag::Decimal128
        | TypeTag::UUID
        | TypeTag::IPv6
        | TypeTag::Point => Some(16),
        TypeTag::UInt256
        | TypeTag::Int256
        | TypeTag::Decimal256 => Some(32),
        TypeTag::FixedString => t.fixed_size,
        _ => None,
    }
}

fn opening(s: &[char]) -> (i: usize)
    ensures
        i == open_at(s@, 0),
        i <= s@.len(),
{
    let mut i: usize = 0;
    while i < s.len() && s[i] != '('
        invariant
            i <= s.len(),
            open_at(s@, 0) == open_at(s@, i as nat),
        decreases s.len() - i,
    {
        i += 1;
    }
    i
}

fn small_at(args: &Vec<&[char]>, i: usize) -> (out: Option<u8>)
    ensures
        out == small_arg(texts(args@), i as int),
{
    if i < args.len() {
        small_number(args[i])
    } else {
        None
    }
}

fn declared_size(args: &Vec<&[char]>) -> (out: Option<usize>)
    ensures
        out == fixed_of("FixedString"@, texts(args@)),
{
    if args.len() == 0 {
        return None;
    }
    match parse_unsigned(args[0], usize::MAX as u128) {
        Some(n) => Some(n as usize),
        None => None,
    }
}

/// What a type string says.
fn parse_text(s: &[char]) -> (out: ParsedType)
    ensures
        out@ == parsed_type(s@),
    decreases s@.len(),
{
    let t = trimmed(s, Strip::White);
    proof {
        lemma_trim_len(s@, Strip::White);
    }
    if let Some(inner) = strip_outer(t, "LowCardinality") {
        return parse_text(inner);
    }
    if let Some(inner) = strip_outer(t, "Nullable") {
        let mut out = parse_text(inner);
        out.nullable = true;
        return out;
    }
    let i: usize = opening(t);
    proof {
        assert(t@.subrange(0, i as int) =~= t@.take(i as int));
    }
    let base = vstd::slice::slice_subrange(t, 0, i);
    let args: Vec<&[char]> = match strip_outer_at(t, i) {
        Some(inner) => split_type_args(inner),
        None => {
            let none: Vec<&[char]> = Vec::new();
            assert(texts(none@) =~= seq![]);
            none
        },
    };
    let array_element: Option<Box<ParsedType>> = match strip_outer(t, "Array") {
        Some(inner) => Some(Box::new(parse_text(inner))),
        None => None,
    };
    let map_types: Option<(Box<ParsedType>, Box<ParsedType>)> = match strip_outer(t, "Map") {
        Some(inner) => {
            let parts = split_type_args(inner);
            proof {
                lemma_type_args_len(inner@);
                assert(texts(parts@).len() == parts@.len());
            }
            if parts.len() == 2 {
                proof {
                    assert(parts@[0]@ == type_args(inner@)[0]);
                    assert(parts@[1]@ == type_args(inner@)[1]);
                }
                Some((Box::new(parse_text(parts[0])), Box::new(parse_text(parts[1]))))
            } else {
                None
            }
        },
        None => None,
    };
    let precision: Option<u8> = if spells(base, "Decimal") || spells(base, "DateTime64") {
        small_at(&args, 0)
    } else {
        None
    };
    let scale: Option<u8> = if spells(base, "Decimal") {
        small_at(&args, 1)
    } else if spells(base, "Decimal32") || spells(base, "Decimal64") || spells(
        base,
        "Decimal128",
    ) || spells(base, "Decimal256") {
        small_at(&args, 0)
    } else {
        None
    };
    let fixed_size: Option<usize> = if spells(base, "FixedString") {
        declared_size(&args)
    } else {
        None
    };
    ParsedType {
        raw: text_of(t),
        base: text_of(base),
        tag: tag_named(base),
        nullable: false,
        precision,
        scale,
        fixed_size,
        array_element,
        map_types,
    }
}

/// What stands between the parenthesis at `i` and the one that closes `s`.
fn strip_outer_at<'a>(s: &'a [char], i: usize) -> (out: Option<&'a [char]>)
    requires
        i == open_at(s@, 0),
        i <= s@.len(),
    ensures
        match out {
            Some(inner) => outer(s@, base_of(s@)) == Some(inner@),
            None => outer(s@, base_of(s@)) is None,
        },
{
    assert(s@.take(i as int) == base_of(s@));
    if s.len() - i < 2 || s[i] != '(' || s[s.len() - 1] != ')' {
        return None;
    }
    Some(vstd::slice::slice_subrange(s, i + 1, s.len() - 1))
}

impl ParsedType {
    /// Take a type string apart.
    #[must_use]
    pub fn parse(type_string: &str) -> (out: Self)
        ensures
            out@ == parsed_type(type_string@),
    {
        let chars = chars_of(type_string);
        parse_text(chars.as_slice())
    }

    /// How many bytes a value takes, where that is the same for all.
    #[must_use]
    pub fn fixed_byte_size(&self) -> (out: Option<usize>)
        ensures
            out == byte_size(self@),
    {
        match self.tag {
            TypeTag::Bool
            | TypeTag::UInt8
            | TypeTag::Int8
            | TypeTag::Enum8 => Some(1),
            TypeTag::UInt16
            | TypeTag::Int16
            | TypeTag::Enum16
            | TypeTag::Date => Some(2),
            TypeTag::UInt32
            | TypeTag::Int32
            | TypeTag::Float32
            | TypeTag::Date32
            | TypeTag::DateTime
            | TypeTag::Decimal32
            | TypeTag::IPv4 => Some(4),
            TypeTag::UInt64
            | TypeTag::Int64
            | TypeTag::Float64
            | TypeTag::DateTime64
            | TypeTag::Decimal64 => Some(8),
            TypeTag::UInt128
            | TypeTag::Int128
            | TypeTag::Decimal128
            | TypeTag::UUID
            | TypeTag::IPv6
            | TypeTag::Point => Some(16),
            TypeTag::UInt256
            | TypeTag::Int256
            | TypeTag::Decimal256 => Some(32),
            TypeTag::FixedString => self.fixed_size,
            _ => None,
        }
    }

    /// A type of the same value.
    fn copied(&self) -> (out: ParsedType)
        ensures
            out@ == self@,
        decreases self,
    {
        ParsedType {
            raw: self.raw.clone(),
            base: self.base.clone(),
            tag: self.tag,
            nullable: self.nullable,
            precision: self.precision,
            scale: self.scale,
            fixed_size: self.fixed_size,
            array_element: match &self.array_element {
                Some(x) => Some(Box::new(x.copied())),
                None => None,
            },
            map_types: match &self.map_types {
                Some((k, v)) => Some((Box::new(k.copied()), Box::new(v.copied()))),
                None => None,
            },
        }
    }
}

impl Clone for ParsedType {
    fn clone(&self) -> (out: ParsedType)
        ensures
            out@ == self@,
    {
        self.copied()
    }
}

// ---------------------------------------------------------------------------
// Laws
// ---------------------------------------------------------------------------

/// `s` as the argument of the type `name`.
pub open spec fn wrapped(name: Seq<char>, s: Seq<char>) -> Seq<char> {
    name + seq!['('] + s + seq![')']
}

pub proof fn lemma_wrapped(name: Seq<char>, s: Seq<char>)
    requires
        name.len() > 0,
        !Strip::White.strips(name[0]),
    ensures
        trim(wrapped(name, s), Strip::White) == wrapped(name, s),
        outer(wrapped(name, s), name) == Some(s),
{
    let w = wrapped(name, s);
    assert(w[0] == name[0]);
    assert(w.last() == ')');
    assert(w.take(name.len() as int) =~= name);
    assert(w.subrange((name.len() + 1) as int, w.len() - 1) =~= s);
}

/// `LowCardinality` does not change how a value is written: it is encoded as
/// the inner type.
pub proof fn law_low_cardinality_is_transparent(s: Seq<char>)
    ensures
        parsed_type(wrapped("LowCardinality"@, s)) == parsed_type(s),
{
    reveal_strlit("LowCardinality");
    lemma_wrapped("LowCardinality"@, s);
}

/// `Nullable` marks the inner type, and changes nothing else.
pub proof fn law_nullable_marks(s: Seq<char>)
    ensures
        parsed_type(wrapped("Nullable"@, s)) == (Parsed { nullable: true, ..parsed_type(s) }),
{
    reveal_strlit("Nullable");
    reveal_strlit("LowCardinality");
    lemma_wrapped("Nullable"@, s);
    let w = wrapped("Nullable"@, s);
    assert(w[0] == 'N');
    if outer(w, "LowCardinality"@) is Some {
        assert(w.take("LowCardinality"@.len() as int)[0] == w[0]);
    }
}

} // verus!
