//! A rendering is JSON.

use vstd::prelude::*;

use crate::native::address::{hex, ipv6_text, longest_run, quad, segment, segments};
use crate::native::columns::Ty;
use crate::native::io::{le_nat, lemma_groups_end, twos, var_uint_at};
use crate::native::json::{
    comma, fixed_string_at, float_text, has_no_number, ipv4_at, ipv6_at, json_at, json_fields,
    json_run, member_name, null_text, point_at, reversed_hex, signed_at, string_json_at, text_at,
    unsigned_at, uuid_at, uuid_text, wide_at, Shown,
};
use crate::native::json_locality::lemma_json_local;
use crate::native::quote::{law_quoted_is_read_back, unescaped, unquoted};
use crate::native::texts::{lookup_text, CellKey};
use crate::text::{decimal_bytes, signed_bytes};

verus! {

/// A JSON document.
pub enum Doc {
    /// `null`.
    Null,
    /// The text of a number.
    Number(Seq<u8>),
    /// A string, quotes and all.
    Text(Seq<u8>),
    /// The items of an array.
    List(Seq<Doc>),
    /// The members of an object, each with its name, quotes and all.
    Object(Seq<(Seq<u8>, Doc)>),
}

/// The text of a document.
pub open spec fn doc_text(d: Doc) -> Seq<u8>
    decreases d,
{
    match d {
        Doc::Null => null_text(),
        Doc::Number(s) => s,
        Doc::Text(s) => s,
        Doc::List(ds) => seq![91u8] + items_text(ds) + seq![93u8],
        Doc::Object(ms) => seq![123u8] + members_text(ms) + seq![125u8],
    }
}

/// The texts of items, with commas between them.
pub open spec fn items_text(ds: Seq<Doc>) -> Seq<u8>
    decreases ds,
{
    if ds.len() == 0 {
        seq![]
    } else {
        items_text(ds.subrange(0, ds.len() - 1)) + comma(ds.len()) + doc_text(ds[ds.len() - 1])
    }
}

/// The texts of members, with commas between them.
pub open spec fn members_text(ms: Seq<(Seq<u8>, Doc)>) -> Seq<u8>
    decreases ms,
{
    if ms.len() == 0 {
        seq![]
    } else {
        let last = ms[ms.len() - 1];
        members_text(ms.subrange(0, ms.len() - 1)) + comma(ms.len()) + last.0 + seq![58u8]
            + doc_text(last.1)
    }
}

/// Where the digits from `i` on end.
pub open spec fn digits_end(s: Seq<u8>, i: int) -> int
    decreases s.len() - i,
{
    if 0 <= i < s.len() && 48 <= s[i] <= 57 {
        digits_end(s, i + 1)
    } else {
        i
    }
}

/// Whether `s` is the text of a JSON number: a sign, an integer without leading
/// zeros, a fraction and an exponent, of which only the integer must be there.
pub open spec fn is_number(s: Seq<u8>) -> bool {
    let i: int = if s.len() > 0 && s[0] == 45 {
        1
    } else {
        0
    };
    let j = digits_end(s, i);
    let k = if j < s.len() && s[j] == 46 {
        digits_end(s, j + 1)
    } else {
        j
    };
    let sign: int = if k + 1 < s.len() && (s[k + 1] == 43 || s[k + 1] == 45) {
        2
    } else {
        1
    };
    let m = if k < s.len() && (s[k] == 101 || s[k] == 69) {
        digits_end(s, k + sign)
    } else {
        k
    };
    &&& j > i
    &&& s[i] == 48 ==> j == i + 1
    &&& k != j ==> k > j + 1
    &&& m != k ==> m > k + sign
    &&& m == s.len()
}

/// Whether every part of a document is what it should be: numbers are numbers,
/// and strings and the names of members are strings.
pub open spec fn well_formed(d: Doc) -> bool
    decreases d,
{
    match d {
        Doc::Null => true,
        Doc::Number(s) => is_number(s),
        Doc::Text(s) => unquoted(s) is Some,
        Doc::List(ds) => all_well_formed(ds),
        Doc::Object(ms) => members_well_formed(ms),
    }
}

/// Whether all items are well formed.
pub open spec fn all_well_formed(ds: Seq<Doc>) -> bool
    decreases ds,
{
    ds.len() == 0 || (all_well_formed(ds.subrange(0, ds.len() - 1)) && well_formed(
        ds[ds.len() - 1],
    ))
}

/// Whether all members are well formed.
pub open spec fn members_well_formed(ms: Seq<(Seq<u8>, Doc)>) -> bool
    decreases ms,
{
    ms.len() == 0 || (members_well_formed(ms.subrange(0, ms.len() - 1)) && unquoted(
        ms[ms.len() - 1].0,
    ) is Some && well_formed(ms[ms.len() - 1].1))
}

/// Whether cells of the type hold values and no text that is JSON already.
pub open spec fn holds_values(t: Ty) -> bool
    decreases t,
{
    match t {
        Ty::Dynamic => false,
        Ty::NewJson => false,
        Ty::Variant(_) => false,
        Ty::Nullable(x) => holds_values(*x),
        Ty::LowCardinality(x) => holds_values(*x),
        Ty::SimpleAggregateFunction(x) => holds_values(*x),
        Ty::Array(x) => holds_values(*x),
        Ty::Mapping(k, v) => holds_values(*k) && holds_values(*v),
        Ty::Tuple(ts) => all_hold_values(ts),
        _ => true,
    }
}

/// Whether cells of all of `ts` hold values.
pub open spec fn all_hold_values(ts: Seq<Ty>) -> bool
    decreases ts,
{
    ts.len() == 0 || (all_hold_values(ts.subrange(0, ts.len() - 1)) && holds_values(
        ts[ts.len() - 1],
    ))
}

// ---------------------------------------------------------------------------
// Numbers
// ---------------------------------------------------------------------------

proof fn lemma_decimal_bytes(n: nat)
    ensures
        decimal_bytes(n).len() > 0,
        forall|i: int|
            0 <= i < decimal_bytes(n).len() ==> 48 <= #[trigger] decimal_bytes(n)[i] <= 57,
        decimal_bytes(n)[0] == 48 ==> decimal_bytes(n).len() == 1,
        n > 0 ==> decimal_bytes(n)[0] != 48,
    decreases n,
{
    if n >= 10 {
        lemma_decimal_bytes(n / 10);
        let before = decimal_bytes(n / 10);
        assert(decimal_bytes(n)[0] == before[0]);
        assert forall|i: int| 0 <= i < decimal_bytes(n).len() implies 48
            <= #[trigger] decimal_bytes(n)[i] <= 57 by {
            if i < before.len() {
                assert(before[i] == decimal_bytes(n)[i]);
            }
        }
    }
}

proof fn lemma_digits_end(s: Seq<u8>, i: int)
    requires
        0 <= i <= s.len(),
        forall|k: int| i <= k < s.len() ==> 48 <= #[trigger] s[k] <= 57,
    ensures
        digits_end(s, i) == s.len(),
    decreases s.len() - i,
{
    if i < s.len() {
        lemma_digits_end(s, i + 1);
    }
}

proof fn lemma_whole_number(n: int)
    ensures
        is_number(signed_bytes(n)),
{
    let s = signed_bytes(n);
    if n < 0 {
        let d = decimal_bytes((-n) as nat);
        lemma_decimal_bytes((-n) as nat);
        assert forall|k: int| 1 <= k < s.len() implies 48 <= #[trigger] s[k] <= 57 by {
            assert(s[k] == d[k - 1]);
        }
        assert(s[1] == d[0]);
        lemma_digits_end(s, 1);
    } else {
        lemma_decimal_bytes(n as nat);
        assert(48 <= s[0] <= 57);
        lemma_digits_end(s, 0);
    }
}

// ---------------------------------------------------------------------------
// Strings
// ---------------------------------------------------------------------------

/// Whether `s` is ASCII that a JSON string holds as it is.
pub open spec fn bare(s: Seq<u8>) -> bool {
    forall|i: int|
        0 <= i < s.len() ==> 0x20 <= #[trigger] s[i] < 0x80 && s[i] != 34 && s[i] != 92
}

proof fn lemma_bare_read(s: Seq<u8>)
    requires
        bare(s),
    ensures
        unescaped(s) == Some(s),
    decreases s.len(),
{
    if s.len() > 0 {
        let rest = s.skip(1);
        assert forall|i: int| 0 <= i < rest.len() implies 0x20 <= #[trigger] rest[i] < 0x80
            && rest[i] != 34 && rest[i] != 92 by {
            assert(rest[i] == s[i + 1]);
        }
        lemma_bare_read(rest);
        assert(0x20 <= s[0] < 0x80);
        assert(seq![s[0]] + rest =~= s);
    } else {
        assert(s =~= seq![]);
    }
}

proof fn lemma_bare_string(s: Seq<u8>)
    requires
        bare(s),
    ensures
        unquoted(seq![34u8] + s + seq![34u8]) is Some,
{
    let q = seq![34u8] + s + seq![34u8];
    assert(q.subrange(1, q.len() - 1) =~= s);
    lemma_bare_read(s);
}

proof fn lemma_reversed_hex_bare(b: Seq<u8>)
    ensures
        bare(reversed_hex(b)),
        reversed_hex(b).len() == 2 * b.len(),
    decreases b.len(),
{
    if b.len() > 0 {
        lemma_reversed_hex_bare(b.drop_first());
    }
}

proof fn lemma_hex_bare(n: nat)
    ensures
        bare(hex(n)),
    decreases n,
{
    if n >= 16 {
        lemma_hex_bare(n / 16);
    }
}

proof fn lemma_decimal_bare(n: nat)
    ensures
        bare(decimal_bytes(n)),
{
    lemma_decimal_bytes(n);
}

proof fn lemma_quad_bare(a: u8, b: u8, c: u8, d: u8)
    ensures
        bare(quad(a, b, c, d)),
{
    lemma_decimal_bare(a as nat);
    lemma_decimal_bare(b as nat);
    lemma_decimal_bare(c as nat);
    lemma_decimal_bare(d as nat);
}

proof fn lemma_segments_bare(a: Seq<u8>, from: int, to: int)
    ensures
        bare(segments(a, from, to)),
    decreases to - from,
{
    if to == from + 1 {
        lemma_hex_bare(segment(a, from));
    } else if to > from {
        lemma_segments_bare(a, from, to - 1);
        lemma_hex_bare(segment(a, to - 1));
    }
}

proof fn lemma_ipv6_bare(a: Seq<u8>)
    ensures
        bare(ipv6_text(a)),
{
    let (start, len) = longest_run(a, 8);
    lemma_quad_bare(a[12], a[13], a[14], a[15]);
    lemma_segments_bare(a, 0, start as int);
    lemma_segments_bare(a, (start + len) as int, 8);
    lemma_segments_bare(a, 0, 8);
}

proof fn lemma_uuid_bare(b: Seq<u8>)
    requires
        b.len() == 16,
    ensures
        bare(uuid_text(b)),
{
    lemma_reversed_hex_bare(b.subrange(0, 8));
    lemma_reversed_hex_bare(b.subrange(8, 16));
}

/// The name of a member is a string.
proof fn lemma_member_name(d: Doc)
    requires
        well_formed(d),
    ensures
        unquoted(member_name(doc_text(d))) is Some,
{
    let text = doc_text(d);
    if text.len() > 0 && text[0] == 34 {
        match d {
            Doc::Number(s) => {
                assert(!is_number(text)) by {
                    assert(digits_end(text, 0) == 0);
                }
            },
            _ => {},
        }
    } else {
        law_quoted_is_read_back(text);
    }
}

// ---------------------------------------------------------------------------
// Renderings
// ---------------------------------------------------------------------------

/// `doc` is what was rendered.
pub open spec fn documents(doc: Doc, shown: Shown) -> bool {
    shown matches Ok((text, _)) ==> well_formed(doc) && doc_text(doc) == text
}

/// Whether the supplied texts are those of numbers.
pub open spec fn number_texts(texts: Seq<(CellKey, Seq<u8>)>) -> bool {
    forall|key: CellKey|
        (#[trigger] lookup_text(texts, key)) matches Some(t) ==> is_number(t)
}

proof fn lemma_float_doc(key: CellKey, texts: Seq<(CellKey, Seq<u8>)>) -> (doc: Doc)
    requires
        number_texts(texts),
    ensures
        float_text(key, texts) matches Ok(t) ==> well_formed(doc) && doc_text(doc) == t,
{
    match lookup_text(texts, key) {
        Some(t) if !has_no_number(key) => Doc::Number(t),
        _ => Doc::Null,
    }
}

proof fn lemma_unsigned_doc(d: Seq<u8>, pos: int, width: nat) -> (doc: Doc)
    requires
        0 <= pos,
    ensures
        documents(doc, unsigned_at(d, pos, width)),
{
    if let Ok((text, end)) = unsigned_at(d, pos, width) {
        let b = d.subrange(pos, end);
        lemma_whole_number(le_nat(b) as int);
        Doc::Number(text)
    } else {
        Doc::Null
    }
}

proof fn lemma_signed_doc(d: Seq<u8>, pos: int, width: nat) -> (doc: Doc)
    requires
        0 <= pos,
    ensures
        documents(doc, signed_at(d, pos, width)),
{
    if let Ok((text, end)) = signed_at(d, pos, width) {
        let b = d.subrange(pos, end);
        lemma_whole_number(twos(le_nat(b), width));
        Doc::Number(text)
    } else {
        Doc::Null
    }
}

proof fn lemma_wide_doc(d: Seq<u8>, pos: int) -> (doc: Doc)
    requires
        0 <= pos,
    ensures
        documents(doc, wide_at(d, pos)),
{
    if let Ok((text, end)) = wide_at(d, pos) {
        let b = d.subrange(pos, end);
        lemma_reversed_hex_bare(b);
        lemma_bare_string(reversed_hex(b));
        Doc::Text(text)
    } else {
        Doc::Null
    }
}

proof fn lemma_uuid_doc(d: Seq<u8>, pos: int) -> (doc: Doc)
    requires
        0 <= pos,
    ensures
        documents(doc, uuid_at(d, pos)),
{
    if let Ok((text, end)) = uuid_at(d, pos) {
        let b = d.subrange(pos, end);
        lemma_uuid_bare(b);
        lemma_bare_string(uuid_text(b));
        Doc::Text(text)
    } else {
        Doc::Null
    }
}

proof fn lemma_ipv4_doc(d: Seq<u8>, pos: int) -> (doc: Doc)
    requires
        0 <= pos,
    ensures
        documents(doc, ipv4_at(d, pos)),
{
    if let Ok((text, end)) = ipv4_at(d, pos) {
        let q = quad(d[pos + 3], d[pos + 2], d[pos + 1], d[pos]);
        lemma_quad_bare(d[pos + 3], d[pos + 2], d[pos + 1], d[pos]);
        lemma_bare_string(q);
        Doc::Text(text)
    } else {
        Doc::Null
    }
}

proof fn lemma_ipv6_doc(d: Seq<u8>, pos: int) -> (doc: Doc)
    requires
        0 <= pos,
    ensures
        documents(doc, ipv6_at(d, pos)),
{
    if let Ok((text, end)) = ipv6_at(d, pos) {
        let b = d.subrange(pos, end);
        lemma_ipv6_bare(b);
        lemma_bare_string(ipv6_text(b));
        Doc::Text(text)
    } else {
        Doc::Null
    }
}

proof fn lemma_string_doc(d: Seq<u8>, pos: int) -> (doc: Doc)
    requires
        0 <= pos,
    ensures
        documents(doc, string_json_at(d, pos)),
{
    if let Ok((text, end)) = string_json_at(d, pos) {
        law_quoted_is_read_back(text_at(d, pos)->Ok_0.0);
        Doc::Text(text)
    } else {
        Doc::Null
    }
}

proof fn lemma_fixed_doc(d: Seq<u8>, pos: int, width: nat) -> (doc: Doc)
    requires
        0 <= pos,
    ensures
        documents(doc, fixed_string_at(d, pos, width)),
{
    if let Ok((text, end)) = fixed_string_at(d, pos, width) {
        let b = d.subrange(pos, end);
        law_quoted_is_read_back(b);
        Doc::Text(text)
    } else {
        Doc::Null
    }
}

proof fn lemma_pair_text(x: Doc, y: Doc)
    requires
        well_formed(x),
        well_formed(y),
    ensures
        well_formed(Doc::List(seq![x, y])),
        doc_text(Doc::List(seq![x, y])) == seq![91u8] + doc_text(x) + seq![44u8] + doc_text(y)
            + seq![93u8],
{
    let ds = seq![x, y];
    let one = ds.subrange(0, 1);
    assert(one =~= seq![x]);
    assert(one.subrange(0, 0) =~= seq![]);
    assert(all_well_formed(one.subrange(0, 0)));
    assert(all_well_formed(one));
    assert(all_well_formed(ds));
    assert(items_text(one.subrange(0, 0)) =~= seq![]);
    assert(items_text(one) =~= doc_text(x));
    assert(items_text(ds) =~= doc_text(x) + seq![44u8] + doc_text(y));
    assert(doc_text(Doc::List(ds)) =~= seq![91u8] + doc_text(x) + seq![44u8] + doc_text(y)
        + seq![93u8]);
}

proof fn lemma_point_doc(d: Seq<u8>, pos: int, texts: Seq<(CellKey, Seq<u8>)>) -> (doc: Doc)
    requires
        number_texts(texts),
        0 <= pos,
    ensures
        documents(doc, point_at(d, pos, texts)),
{
    let x = lemma_float_doc(CellKey::Double(le_nat(d.subrange(pos, pos + 8)) as u64), texts);
    let y = lemma_float_doc(CellKey::Double(le_nat(d.subrange(pos + 8, pos + 16)) as u64), texts);
    if point_at(d, pos, texts) is Ok {
        lemma_pair_text(x, y);
        Doc::List(seq![x, y])
    } else {
        Doc::Null
    }
}

#[verifier::rlimit(40)]
proof fn lemma_scalar_doc(d: Seq<u8>, pos: int, t: Ty, texts: Seq<(CellKey, Seq<u8>)>) -> (doc: Doc)
    requires
        number_texts(texts),
        holds_values(t),
        0 <= pos,
        !(t is Nullable || t is LowCardinality || t is SimpleAggregateFunction || t is Array
            || t is Tuple || t is Mapping),
    ensures
        documents(doc, json_at(d, pos, t, texts)),
{
    match t {
        Ty::UInt8 => lemma_unsigned_doc(d, pos, 1),
        Ty::UInt16 => lemma_unsigned_doc(d, pos, 2),
        Ty::Date => lemma_unsigned_doc(d, pos, 2),
        Ty::UInt32 => lemma_unsigned_doc(d, pos, 4),
        Ty::Time => lemma_unsigned_doc(d, pos, 4),
        Ty::DateTime => lemma_unsigned_doc(d, pos, 4),
        Ty::UInt64 => lemma_unsigned_doc(d, pos, 8),
        Ty::UInt128 => lemma_unsigned_doc(d, pos, 16),
        Ty::Int8 => lemma_signed_doc(d, pos, 1),
        Ty::Enum8 => lemma_signed_doc(d, pos, 1),
        Ty::Int16 => lemma_signed_doc(d, pos, 2),
        Ty::Enum16 => lemma_signed_doc(d, pos, 2),
        Ty::Int32 => lemma_signed_doc(d, pos, 4),
        Ty::Decimal32 { .. } => lemma_signed_doc(d, pos, 4),
        Ty::Date32 => lemma_signed_doc(d, pos, 4),
        Ty::Int64 => lemma_signed_doc(d, pos, 8),
        Ty::Time64 => lemma_signed_doc(d, pos, 8),
        Ty::Decimal64 { .. } => lemma_signed_doc(d, pos, 8),
        Ty::DateTime64 { .. } => lemma_signed_doc(d, pos, 8),
        Ty::Int128 => lemma_signed_doc(d, pos, 16),
        Ty::Decimal128 { .. } => lemma_signed_doc(d, pos, 16),
        Ty::Int256 => lemma_wide_doc(d, pos),
        Ty::UInt256 => lemma_wide_doc(d, pos),
        Ty::Decimal256 { .. } => lemma_wide_doc(d, pos),
        Ty::Float32 => lemma_float_doc(
            CellKey::Single(le_nat(d.subrange(pos, pos + 4)) as u32),
            texts,
        ),
        Ty::Float64 => lemma_float_doc(
            CellKey::Double(le_nat(d.subrange(pos, pos + 8)) as u64),
            texts,
        ),
        Ty::BFloat16 => lemma_float_doc(
            CellKey::Single((le_nat(d.subrange(pos, pos + 2)) * 0x1_0000) as u32),
            texts,
        ),
        Ty::Uuid => lemma_uuid_doc(d, pos),
        Ty::IPv4 => lemma_ipv4_doc(d, pos),
        Ty::IPv6 => lemma_ipv6_doc(d, pos),
        Ty::Point => lemma_point_doc(d, pos, texts),
        Ty::String => lemma_string_doc(d, pos),
        Ty::Json => lemma_string_doc(d, pos),
        Ty::FixedString(n) => lemma_fixed_doc(d, pos, n as nat),
        _ => Doc::Null,
    }
}

#[verifier::rlimit(40)]
proof fn lemma_doc(d: Seq<u8>, pos: int, t: Ty, texts: Seq<(CellKey, Seq<u8>)>) -> (doc: Doc)
    requires
        number_texts(texts),
        holds_values(t),
        0 <= pos,
    ensures
        documents(doc, json_at(d, pos, t, texts)),
    decreases t, 2nat, 0nat,
{
    match t {
        Ty::Nullable(x) => {
            if pos < d.len() && d[pos] == 0 {
                lemma_doc(d, pos + 1, *x, texts)
            } else {
                Doc::Null
            }
        },
        Ty::LowCardinality(x) => lemma_doc(d, pos, *x, texts),
        Ty::SimpleAggregateFunction(x) => lemma_doc(d, pos, *x, texts),
        Ty::Array(_) => {
            if let Ok((count, p)) = var_uint_at(d, pos) {
                lemma_groups_end(d, pos, 10);
                Doc::List(lemma_items(d, p, t, count as nat, texts))
            } else {
                Doc::Null
            }
        },
        Ty::Mapping(_, _) => {
            if let Ok((count, p)) = var_uint_at(d, pos) {
                lemma_groups_end(d, pos, 10);
                Doc::Object(lemma_members(d, p, t, count as nat, texts))
            } else {
                Doc::Null
            }
        },
        Ty::Tuple(ts) => Doc::List(lemma_field_docs(d, pos, ts, texts)),
        _ => lemma_scalar_doc(d, pos, t, texts),
    }
}

proof fn lemma_items(d: Seq<u8>, pos: int, t: Ty, n: nat, texts: Seq<(CellKey, Seq<u8>)>) -> (ds:
    Seq<Doc>)
    requires
        number_texts(texts),
        t is Array,
        holds_values(t),
        0 <= pos,
    ensures
        json_run(d, pos, t, n, texts) matches Ok((s, p)) ==> ds.len() == n && all_well_formed(ds)
            && items_text(ds) == s && p >= pos,
    decreases t, 1nat, n,
{
    if n == 0 {
        Seq::empty()
    } else {
        let before = lemma_items(d, pos, t, (n - 1) as nat, texts);
        if let Ok((_, p)) = json_run(d, pos, t, (n - 1) as nat, texts) {
            lemma_ends(d, p, *t->Array_0, texts);
            let x = lemma_doc(d, p, *t->Array_0, texts);
            let ds = before.push(x);
            assert(ds.subrange(0, ds.len() - 1) =~= before);
            ds
        } else {
            before
        }
    }
}

proof fn lemma_members(d: Seq<u8>, pos: int, t: Ty, n: nat, texts: Seq<(CellKey, Seq<u8>)>) -> (ms:
    Seq<(Seq<u8>, Doc)>)
    requires
        number_texts(texts),
        t is Mapping,
        holds_values(t),
        0 <= pos,
    ensures
        json_run(d, pos, t, n, texts) matches Ok((s, p)) ==> ms.len() == n && members_well_formed(
            ms,
        ) && members_text(ms) == s && p >= pos,
    decreases t, 1nat, n,
{
    if n == 0 {
        Seq::empty()
    } else {
        let before = lemma_members(d, pos, t, (n - 1) as nat, texts);
        if let Ok((_, p)) = json_run(d, pos, t, (n - 1) as nat, texts) {
            lemma_ends(d, p, *t->Mapping_0, texts);
            if let Ok((key, q)) = json_at(d, p, *t->Mapping_0, texts) {
                let k = lemma_doc(d, p, *t->Mapping_0, texts);
                lemma_member_name(k);
                lemma_ends(d, q, *t->Mapping_1, texts);
                let v = lemma_doc(d, q, *t->Mapping_1, texts);
                let ms = before.push((member_name(key), v));
                assert(ms.subrange(0, ms.len() - 1) =~= before);
                ms
            } else {
                before
            }
        } else {
            before
        }
    }
}

proof fn lemma_field_docs(d: Seq<u8>, pos: int, ts: Seq<Ty>, texts: Seq<(CellKey, Seq<u8>)>) -> (ds:
    Seq<Doc>)
    requires
        number_texts(texts),
        all_hold_values(ts),
        0 <= pos,
    ensures
        json_fields(d, pos, ts, texts) matches Ok((s, p)) ==> ds.len() == ts.len()
            && all_well_formed(ds) && items_text(ds) == s && p >= pos,
    decreases ts, 0nat, 0nat,
{
    if ts.len() == 0 {
        Seq::empty()
    } else {
        let tb = ts.subrange(0, ts.len() - 1);
        let before = lemma_field_docs(d, pos, tb, texts);
        if let Ok((_, p)) = json_fields(d, pos, tb, texts) {
            lemma_ends(d, p, ts[ts.len() - 1], texts);
            let x = lemma_doc(d, p, ts[ts.len() - 1], texts);
            let ds = before.push(x);
            assert(ds.subrange(0, ds.len() - 1) =~= before);
            ds
        } else {
            before
        }
    }
}

/// A value does not end before it starts.
proof fn lemma_ends(d: Seq<u8>, pos: int, t: Ty, texts: Seq<(CellKey, Seq<u8>)>)
    requires
        0 <= pos,
    ensures
        json_at(d, pos, t, texts) matches Ok((_, p)) ==> p >= pos,
{
    assert(d.take(d.len() as int) =~= d);
    lemma_json_local(d, d, pos, t, texts);
}

/// A rendering is JSON: the text of a cell is that of a document made of
/// `null`, numbers, strings, arrays and objects, in which the name of every
/// member is a string. It asks that the texts supplied for floating point
/// numbers are numbers, and leaves out the types whose cells hold JSON text
/// already, which is taken over as it is.
pub proof fn law_rendering_is_json(d: Seq<u8>, t: Ty, texts: Seq<(CellKey, Seq<u8>)>)
    requires
        number_texts(texts),
        holds_values(t),
    ensures
        json_at(d, 0, t, texts) matches Ok((text, _)) ==> exists|doc: Doc| #[trigger] well_formed(
            doc,
        ) && doc_text(doc) == text,
{
    let doc = lemma_doc(d, 0, t, texts);
    if let Ok((text, _)) = json_at(d, 0, t, texts) {
        assert(well_formed(doc) && doc_text(doc) == text);
    }
}

} // verus!
