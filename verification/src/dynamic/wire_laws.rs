//! What the bytes of a row stand for, read back.

use vstd::prelude::*;
use vstd::string::*;

use crate::dynamic::answers::{entry_of, product_of, AnswersView, Float};
use crate::dynamic::encode::{
    column_bytes, default_bytes, entries_bytes, items_bytes, led, lemma_low_bytes, resolved,
    row_wire, signed_le, typed_bytes, value_bytes, ColumnView,
};
use crate::dynamic::error::DynamicErrorView;
use crate::dynamic::insert_laws::{has_key, law_members_are_found_by_name};
use crate::dynamic::parsed_type::Parsed;
use crate::dynamic::time::{days_of, is_date, octet_chars, seconds_of, ticks_of};
use crate::dynamic::time_laws::lemma_day_bounds;
use crate::dynamic::value::{
    compact, compact_entries, compact_items, json_string, member, Json, NumberView,
};
use crate::error::ErrorView;
use crate::native::encode::flat;
use crate::native::io::{
    law_le_round_trip, law_twos_round_trip, law_var_uint_round_trip, le_bytes, le_nat,
    lemma_le_bytes_len, lemma_pow256, lemma_stands_split, pattern, pow256, stands_at, string, twos,
    var_uint, var_uint_at,
};
use crate::native::values::{lemma_flat_push, lemma_flat_split};
use crate::text::{trim, Strip};

verus! {

// ---------------------------------------------------------------------------
// Arrays and maps
// ---------------------------------------------------------------------------

/// [`value_bytes`], as a whole.
#[verifier::opaque]
pub open spec fn form_of(v: Json, t: Parsed, col: Seq<char>, a: AnswersView) -> Result<
    Seq<u8>,
    DynamicErrorView,
> {
    value_bytes(v, t, col, a)
}

/// [`items_bytes`], as a whole.
#[verifier::opaque]
pub open spec fn items_form(vs: Seq<Json>, t: Parsed, col: Seq<char>, a: AnswersView) -> Result<
    Seq<u8>,
    DynamicErrorView,
> {
    items_bytes(vs, t, col, a)
}

/// [`entries_bytes`], as a whole.
#[verifier::opaque]
pub open spec fn entries_form(
    es: Seq<(Seq<char>, Json)>,
    t: Parsed,
    col: Seq<char>,
    a: AnswersView,
) -> Result<Seq<u8>, DynamicErrorView> {
    entries_bytes(es, t, col, a)
}

/// The wire forms of the items.
pub open spec fn item_forms(vs: Seq<Json>, t: Parsed, col: Seq<char>, a: AnswersView) -> Seq<
    Seq<u8>,
> {
    Seq::new(vs.len(), |i: int| form_of(vs[i], t, col, a)->Ok_0)
}

/// The wire forms of the entries: the key as a string, then the value.
pub open spec fn entry_forms(
    es: Seq<(Seq<char>, Json)>,
    t: Parsed,
    col: Seq<char>,
    a: AnswersView,
) -> Seq<Seq<u8>> {
    Seq::new(
        es.len(),
        |i: int| string(vstd::utf8::encode_utf8(es[i].0)) + form_of(es[i].1, t, col, a)->Ok_0,
    )
}

proof fn lemma_items_step(vs: Seq<Json>, t: Parsed, col: Seq<char>, a: AnswersView)
    ensures
        vs.len() == 0 ==> items_form(vs, t, col, a) == Ok::<Seq<u8>, DynamicErrorView>(seq![]),
        vs.len() > 0 ==> items_form(vs, t, col, a) == match items_form(vs.drop_last(), t, col, a) {
            Ok(b) => led(b, form_of(vs.last(), t, col, a)),
            Err(e) => Err(e),
        },
{
    reveal(items_form);
    reveal(form_of);
}

proof fn lemma_entries_step(es: Seq<(Seq<char>, Json)>, t: Parsed, col: Seq<char>, a: AnswersView)
    ensures
        es.len() == 0 ==> entries_form(es, t, col, a) == Ok::<Seq<u8>, DynamicErrorView>(seq![]),
        es.len() > 0 ==> entries_form(es, t, col, a) == match entries_form(
            es.drop_last(),
            t,
            col,
            a,
        ) {
            Ok(b) => led(
                b + string(vstd::utf8::encode_utf8(es.last().0)),
                form_of(es.last().1, t, col, a),
            ),
            Err(e) => Err(e),
        },
{
    reveal(entries_form);
    reveal(form_of);
}

proof fn lemma_items(vs: Seq<Json>, t: Parsed, col: Seq<char>, a: AnswersView)
    ensures
        match items_form(vs, t, col, a) {
            Ok(b) => b == flat(item_forms(vs, t, col, a)) && forall|i: int|
                0 <= i < vs.len() ==> form_of(#[trigger] vs[i], t, col, a) is Ok,
            Err(e) => exists|i: int|
                0 <= i < vs.len() && form_of(#[trigger] vs[i], t, col, a) == Err::<
                    Seq<u8>,
                    DynamicErrorView,
                >(e),
        },
    decreases vs.len(),
{
    let forms = item_forms(vs, t, col, a);
    lemma_items_step(vs, t, col, a);
    if vs.len() > 0 {
        let before = vs.drop_last();
        let n = vs.len() - 1;
        lemma_items(before, t, col, a);
        assert(forms.drop_last() =~= item_forms(before, t, col, a));
        if let Err(e) = items_form(before, t, col, a) {
            let i = choose|i: int|
                0 <= i < before.len() && form_of(#[trigger] before[i], t, col, a) == Err::<
                    Seq<u8>,
                    DynamicErrorView,
                >(e);
            assert(form_of(vs[i], t, col, a) == Err::<Seq<u8>, DynamicErrorView>(e));
        } else if let Err(e) = form_of(vs[n], t, col, a) {
            assert(form_of(vs[n], t, col, a) == Err::<Seq<u8>, DynamicErrorView>(e));
        } else {
            assert forall|i: int| 0 <= i < vs.len() implies form_of(
                #[trigger] vs[i],
                t,
                col,
                a,
            ) is Ok by {
                if i < n {
                    assert(form_of(before[i], t, col, a) is Ok);
                }
            }
        }
    } else {
        assert(forms =~= seq![]);
    }
}

proof fn lemma_entries(es: Seq<(Seq<char>, Json)>, t: Parsed, col: Seq<char>, a: AnswersView)
    ensures
        match entries_form(es, t, col, a) {
            Ok(b) => b == flat(entry_forms(es, t, col, a)) && forall|i: int|
                0 <= i < es.len() ==> form_of((#[trigger] es[i]).1, t, col, a) is Ok,
            Err(e) => exists|i: int|
                0 <= i < es.len() && form_of((#[trigger] es[i]).1, t, col, a) == Err::<
                    Seq<u8>,
                    DynamicErrorView,
                >(e),
        },
    decreases es.len(),
{
    let forms = entry_forms(es, t, col, a);
    lemma_entries_step(es, t, col, a);
    if es.len() > 0 {
        let before = es.drop_last();
        let n = es.len() - 1;
        lemma_entries(before, t, col, a);
        assert(forms.drop_last() =~= entry_forms(before, t, col, a));
        if let Err(e) = entries_form(before, t, col, a) {
            let i = choose|i: int|
                0 <= i < before.len() && form_of((#[trigger] before[i]).1, t, col, a) == Err::<
                    Seq<u8>,
                    DynamicErrorView,
                >(e);
            assert(form_of(es[i].1, t, col, a) == Err::<Seq<u8>, DynamicErrorView>(e));
        } else if let Err(e) = form_of(es[n].1, t, col, a) {
            assert(form_of(es[n].1, t, col, a) == Err::<Seq<u8>, DynamicErrorView>(e));
        } else {
            assert forall|i: int| 0 <= i < es.len() implies form_of(
                (#[trigger] es[i]).1,
                t,
                col,
                a,
            ) is Ok by {
                if i < n {
                    assert(form_of(before[i].1, t, col, a) is Ok);
                }
            }
            let b = entries_form(es, t, col, a)->Ok_0;
            assert(b =~= flat(forms));
        }
    } else {
        assert(forms =~= seq![]);
    }
}

/// The wire form of an array value, and of a map value.
proof fn lemma_lists(
    v: Json,
    t: Parsed,
    x: Parsed,
    col: Seq<char>,
    a: AnswersView,
)
    ensures
        resolved(t) is Array && t.array_element == Some(Box::new(x)) ==> (v matches Json::Array(vs)
            ==> typed_bytes(v, t, col, a) == led(var_uint(vs.len()), items_form(vs, x, col, a))),
        resolved(t) is Mapping && (t.map_types matches Some((_, y)) && *y == x) ==> (
        v matches Json::Object(es) ==> typed_bytes(v, t, col, a) == led(
            var_uint(es.len()),
            entries_form(es, x, col, a),
        )),
{
    reveal(items_form);
    reveal(entries_form);
}

/// One of several pieces stands behind those before it.
proof fn lemma_piece_stands(head: Seq<u8>, parts: Seq<Seq<u8>>, i: int)
    requires
        0 <= i < parts.len(),
    ensures
        stands_at(head + flat(parts), (head.len() + flat(parts.take(i)).len()) as int, parts[i]),
        flat(parts.take(i + 1)).len() == flat(parts.take(i)).len() + parts[i].len(),
        flat(parts.take(i + 1)).len() <= flat(parts).len(),
{
    let a = parts.take(i);
    let b = parts.skip(i + 1);
    assert(parts.take(i + 1) =~= a.push(parts[i]));
    lemma_flat_push(a, parts[i]);
    assert(parts =~= parts.take(i + 1) + b);
    lemma_flat_split(parts.take(i + 1), b);
    let d = head + flat(parts);
    let p = (head.len() + flat(a).len()) as int;
    assert(d.subrange(p, p + parts[i].len()) =~= parts[i]);
}

/// An array is its count and the wire forms of its items, in order: item `i`
/// stands behind the count and the items before it, and is what its value alone
/// is encoded as. It is refused exactly where an item is, for that reason.
pub proof fn law_an_array_reads_back(
    vs: Seq<Json>,
    t: Parsed,
    x: Parsed,
    col: Seq<char>,
    a: AnswersView,
    i: int,
)
    requires
        resolved(t) is Array,
        t.array_element == Some(Box::new(x)),
        vs.len() <= u64::MAX,
        0 <= i < vs.len(),
    ensures
        match typed_bytes(Json::Array(vs), t, col, a) {
            Ok(b) => {
                let forms = item_forms(vs, x, col, a);
                let p = (var_uint(vs.len()).len() + flat(forms.take(i)).len()) as int;
                &&& var_uint_at(b, 0) == Ok::<(u64, int), ErrorView>(
                    (vs.len() as u64, var_uint(vs.len()).len() as int),
                )
                &&& form_of(vs[i], x, col, a) matches Ok(v) && stands_at(b, p, v)
                &&& b.len() == var_uint(vs.len()).len() + flat(forms).len()
            },
            Err(e) => exists|k: int|
                0 <= k < vs.len() && form_of(#[trigger] vs[k], x, col, a) == Err::<
                    Seq<u8>,
                    DynamicErrorView,
                >(e),
        },
{
    let v = Json::Array(vs);
    lemma_items(vs, x, col, a);
    lemma_lists(v, t, x, col, a);
    if let Ok(b) = typed_bytes(Json::Array(vs), t, col, a) {
        let head = var_uint(vs.len());
        let forms = item_forms(vs, x, col, a);
        assert(form_of(vs[i], x, col, a) is Ok);
        lemma_piece_stands(head, forms, i);
        assert(stands_at(b, 0, head)) by {
            assert(b.subrange(0, head.len() as int) =~= head);
        }
        law_var_uint_round_trip(b, 0, vs.len() as u64);
    }
}

/// A map reads back as the entries of its object, in order: behind the count
/// and the entries before it stands entry `i`, a length and as many bytes, which
/// are the UTF-8 of key `i`, and then what value `i` alone is encoded as. It is
/// refused exactly where a value is, for that reason.
pub proof fn law_a_map_reads_back(
    es: Seq<(Seq<char>, Json)>,
    t: Parsed,
    k: Parsed,
    x: Parsed,
    col: Seq<char>,
    a: AnswersView,
    i: int,
)
    requires
        resolved(t) is Mapping,
        t.map_types == Some((Box::new(k), Box::new(x))),
        es.len() <= u64::MAX,
        0 <= i < es.len(),
        vstd::utf8::encode_utf8(es[i].0).len() <= u64::MAX,
    ensures
        match typed_bytes(Json::Object(es), t, col, a) {
            Ok(b) => {
                let forms = entry_forms(es, x, col, a);
                let key = vstd::utf8::encode_utf8(es[i].0);
                let p = (var_uint(es.len()).len() + flat(forms.take(i)).len()) as int;
                let end = (var_uint(es.len()).len() + flat(forms.take(i + 1)).len()) as int;
                &&& var_uint_at(b, 0) == Ok::<(u64, int), ErrorView>(
                    (es.len() as u64, var_uint(es.len()).len() as int),
                )
                &&& var_uint_at(b, p) matches Ok((len, q)) && len == key.len() && q + len <= end
                    && b.subrange(q, q + len) == key && form_of(es[i].1, x, col, a) == Ok::<
                    Seq<u8>,
                    DynamicErrorView,
                >(b.subrange(q + len, end))
                &&& i + 1 == es.len() ==> end == b.len()
            },
            Err(e) => exists|k: int|
                0 <= k < es.len() && form_of((#[trigger] es[k]).1, x, col, a) == Err::<
                    Seq<u8>,
                    DynamicErrorView,
                >(e),
        },
{
    lemma_entries(es, x, col, a);
    lemma_lists(Json::Object(es), t, x, col, a);
    if let Ok(b) = typed_bytes(Json::Object(es), t, col, a) {
        let head = var_uint(es.len());
        let forms = entry_forms(es, x, col, a);
        let key = vstd::utf8::encode_utf8(es[i].0);
        assert(form_of(es[i].1, x, col, a) is Ok);
        let v = form_of(es[i].1, x, col, a)->Ok_0;
        lemma_piece_stands(head, forms, i);
        assert(stands_at(b, 0, head)) by {
            assert(b.subrange(0, head.len() as int) =~= head);
        }
        law_var_uint_round_trip(b, 0, es.len() as u64);
        let p = (head.len() + flat(forms.take(i)).len()) as int;
        let size = var_uint(key.len());
        assert(forms[i] == string(key) + v);
        lemma_stands_split(b, p, string(key), v);
        lemma_stands_split(b, p, size, key);
        law_var_uint_round_trip(b, p, key.len() as u64);
        if i + 1 == es.len() {
            assert(forms.take(i + 1) =~= forms);
        }
    }
}

// ---------------------------------------------------------------------------
// Scalars
// ---------------------------------------------------------------------------

/// A string column holds the UTF-8 of the text, behind its length; a JSON column
/// the text of a string that is not empty, as it is.
pub proof fn law_text_reads_back(s: Seq<char>, t: Parsed, col: Seq<char>, a: AnswersView)
    requires
        resolved(t) is String || (resolved(t) is JSON && s.len() > 0),
        vstd::utf8::encode_utf8(s).len() <= u64::MAX,
    ensures
        typed_bytes(Json::String(s), t, col, a) matches Ok(b) && var_uint_at(b, 0) matches Ok(
            (len, p),
        ) && p + len == b.len() && b.subrange(p, b.len() as int) == vstd::utf8::encode_utf8(s),
{
    let u = vstd::utf8::encode_utf8(s);
    let b = string(u);
    assert(stands_at(b, 0, b)) by {
        assert(b.subrange(0, b.len() as int) =~= b);
    }
    lemma_stands_split(b, 0, var_uint(u.len()), u);
    law_var_uint_round_trip(b, 0, u.len() as u64);
}

/// A fixed string column holds as many bytes as it is wide: those of the text,
/// as far as they go, and zeros behind them.
pub proof fn law_fixed_text_reads_back(
    s: Seq<char>,
    n: usize,
    t: Parsed,
    col: Seq<char>,
    a: AnswersView,
)
    requires
        resolved(t) is FixedString,
        t.fixed_size == Some(n),
    ensures
        ({
            let u = vstd::utf8::encode_utf8(s);
            typed_bytes(Json::String(s), t, col, a) matches Ok(b) && b.len() == n && (forall|i: int|
                0 <= i < n ==> #[trigger] b[i] == if i < u.len() {
                    u[i]
                } else {
                    0u8
                })
        }),
{
}

/// A boolean column holds one byte: 1 for true and for whole numbers other than
/// zero, 0 for false and zero.
pub proof fn law_booleans_read_back(
    b: bool,
    n: NumberView,
    i: i64,
    t: Parsed,
    col: Seq<char>,
    a: AnswersView,
)
    requires
        resolved(t) is Bool,
        n.signed == Some(i),
    ensures
        typed_bytes(Json::Bool(b), t, col, a) == Ok::<Seq<u8>, DynamicErrorView>(
            seq![if b { 1u8 } else { 0u8 }],
        ),
        typed_bytes(Json::Number(n), t, col, a) == Ok::<Seq<u8>, DynamicErrorView>(
            seq![if i != 0 { 1u8 } else { 0u8 }],
        ),
{
}

/// A double column holds the bits of the number, and a single column those of
/// its nearest single, where that is no infinity.
pub proof fn law_floats_read_back(
    n: NumberView,
    f: Float,
    t: Parsed,
    col: Seq<char>,
    a: AnswersView,
)
    requires
        n.float == Some(f),
    ensures
        resolved(t) is Float64 ==> (typed_bytes(Json::Number(n), t, col, a) matches Ok(b)
            && b.len() == 8 && le_nat(b) == f.bits),
        resolved(t) is Float32 && !f.is_past_single() ==> (typed_bytes(
            Json::Number(n),
            t,
            col,
            a,
        ) matches Ok(b) && b.len() == 4 && le_nat(b) == f.single),
{
    lemma_pow256();
    law_le_round_trip(f.bits as nat, 8);
    law_le_round_trip(f.single as nat, 4);
}

/// The bytes of an integer that fits them.
pub proof fn lemma_integer_back(i: int, width: nat)
    requires
        width == 1 || width == 2 || width == 4 || width == 8 || width == 16,
        -pow(width) <= 2 * i < pow(width) || 0 <= i < pow(width),
    ensures
        signed_le(i, width).len() == width,
        0 <= i ==> le_nat(signed_le(i, width)) == i,
        -pow(width) <= 2 * i < pow(width) ==> twos(
            le_nat(signed_le(i, width)),
            width,
        ) == i,
{
    lemma_pow256();
    if width < 16 {
        lemma_low_bytes(i, width);
    }
    law_le_round_trip(pattern(i, width), width);
    if -pow(width) <= 2 * i < pow(width) {
        law_twos_round_trip(i, width);
    }
}

/// 256 to the power `width`.
pub open spec fn pow(width: nat) -> int {
    pow256(width) as int
}

/// Dates, datetimes and ticks hold the number of days, seconds or ticks that
/// the value stands for: a `Date` in 16 bits, a `Date32` in 32 signed ones, a
/// `DateTime` in 32, a `DateTime64` in 64 signed ones. What does not fit is
/// refused.
pub proof fn law_times_read_back(v: Json, t: Parsed, col: Seq<char>, a: AnswersView)
    ensures
        resolved(t) is Date ==> match typed_bytes(v, t, col, a) {
            Ok(b) => b.len() == 2 && days_of(v, col) == Ok::<int, DynamicErrorView>(
                le_nat(b) as int,
            ),
            Err(_) => days_of(v, col) matches Ok(d) ==> !(0 <= d < 65_536),
        },
        resolved(t) is Date32 ==> match typed_bytes(v, t, col, a) {
            Ok(b) => b.len() == 4 && days_of(v, col) == Ok::<int, DynamicErrorView>(
                twos(le_nat(b), 4),
            ),
            Err(e) => days_of(v, col) == Err::<int, DynamicErrorView>(e),
        },
        resolved(t) is DateTime ==> match typed_bytes(v, t, col, a) {
            Ok(b) => b.len() == 4 && seconds_of(v, col) == Ok::<int, DynamicErrorView>(
                le_nat(b) as int,
            ),
            Err(_) => seconds_of(v, col) matches Ok(s) ==> !(0 <= s < 0x1_0000_0000),
        },
        resolved(t) is DateTime64 ==> (t.precision matches Some(p) ==> match typed_bytes(
            v,
            t,
            col,
            a,
        ) {
            Ok(b) => b.len() == 8 && ticks_of(v, p, col) == Ok::<int, DynamicErrorView>(
                twos(le_nat(b), 8),
            ),
            Err(e) => ticks_of(v, p, col) == Err::<int, DynamicErrorView>(e),
        }),
{
    lemma_pow256();
    if let Ok(d) = days_of(v, col) {
        lemma_days_fit(v, col);
        if 0 <= d < 65_536 {
            lemma_integer_back(d, 2);
        }
        lemma_integer_back(d, 4);
    }
    if let Ok(s) = seconds_of(v, col) {
        if 0 <= s < 0x1_0000_0000 {
            lemma_integer_back(s, 4);
        }
    }
    if let Some(p) = t.precision {
        if let Ok(k) = ticks_of(v, p, col) {
            lemma_ticks_fit(v, p, col);
            lemma_integer_back(k, 8);
        }
    }
}

proof fn lemma_days_fit(v: Json, col: Seq<char>)
    ensures
        days_of(v, col) matches Ok(d) ==> i32::MIN <= d <= i32::MAX,
{
    if let Json::String(s) = v {
        let t = octet_chars(
            trim(s, Strip::White),
        );
        if is_date(t) {
            lemma_day_bounds(t, col);
        }
    }
}

proof fn lemma_ticks_fit(v: Json, p: u8, col: Seq<char>)
    ensures
        ticks_of(v, p, col) matches Ok(k) ==> i64::MIN <= k <= i64::MAX,
{
}

/// A decimal holds its backing integer: the product of the number and ten to
/// the scale, in as many bits as its width has.
pub proof fn law_decimals_read_back(
    n: NumberView,
    f: Float,
    k: i128,
    t: Parsed,
    scale: u8,
    col: Seq<char>,
    a: AnswersView,
)
    requires
        n.float == Some(f),
        t.scale == Some(scale),
        product_of(a.scaled, f.bits, scale) == Some(Some(k)),
    ensures
        resolved(t) is Decimal32 ==> match typed_bytes(Json::Number(n), t, col, a) {
            Ok(b) => b.len() == 4 && twos(le_nat(b), 4) == k,
            Err(_) => !(i32::MIN <= k <= i32::MAX),
        },
        resolved(t) is Decimal64 ==> match typed_bytes(Json::Number(n), t, col, a) {
            Ok(b) => b.len() == 8 && twos(le_nat(b), 8) == k,
            Err(_) => !(i64::MIN <= k <= i64::MAX),
        },
        resolved(t) is Decimal128 ==> (typed_bytes(Json::Number(n), t, col, a) matches Ok(b)
            && b.len() == 16 && twos(le_nat(b), 16) == k),
        resolved(t) is Decimal256 ==> (typed_bytes(Json::Number(n), t, col, a) matches Ok(b)
            && b.len() == 32 && twos(le_nat(b.take(16)), 16) == k && (forall|i: int|
            16 <= i < 32 ==> #[trigger] b[i] == if k < 0 {
                0xffu8
            } else {
                0u8
            })),
{
    lemma_pow256();
    if i32::MIN <= k <= i32::MAX {
        lemma_integer_back(k as int, 4);
    }
    if i64::MIN <= k <= i64::MAX {
        lemma_integer_back(k as int, 8);
    }
    lemma_integer_back(k as int, 16);
    if resolved(t) is Decimal256 {
        let b = typed_bytes(Json::Number(n), t, col, a)->Ok_0;
        assert(b.take(16) =~= signed_le(k as int, 16));
    }
}

/// Integers of 128 and 256 bits hold the number, and are refused where an
/// unsigned one is negative.
pub proof fn law_wide_integers_read_back(
    n: NumberView,
    i: int,
    t: Parsed,
    col: Seq<char>,
    a: AnswersView,
)
    requires
        i64::MIN <= i <= u64::MAX,
        n.unsigned == (if i >= 0 {
            Some(i as u64)
        } else {
            None
        }),
        n.signed == (if i <= i64::MAX {
            Some(i as i64)
        } else {
            None
        }),
    ensures
        resolved(t) is UInt128 ==> match typed_bytes(Json::Number(n), t, col, a) {
            Ok(b) => b.len() == 16 && le_nat(b) == i,
            Err(_) => i < 0,
        },
        resolved(t) is Int128 ==> (typed_bytes(Json::Number(n), t, col, a) matches Ok(b) && b.len()
            == 16 && twos(le_nat(b), 16) == i),
        resolved(t) is UInt256 ==> match typed_bytes(Json::Number(n), t, col, a) {
            Ok(b) => b.len() == 32 && le_nat(b.take(16)) == i && (forall|j: int|
                16 <= j < 32 ==> #[trigger] b[j] == 0),
            Err(_) => i < 0,
        },
        resolved(t) is Int256 ==> (typed_bytes(Json::Number(n), t, col, a) matches Ok(b) && b.len()
            == 32 && twos(le_nat(b.take(16)), 16) == i && (forall|j: int|
            16 <= j < 32 ==> #[trigger] b[j] == if i < 0 {
                0xffu8
            } else {
                0u8
            })),
{
    lemma_pow256();
    lemma_integer_back(i, 16);
    if let Ok(b) = typed_bytes(Json::Number(n), t, col, a) {
        if i >= 0 {
            lemma_le_bytes_len(i as nat, 16);
            assert(resolved(t) is UInt256 ==> b.take(16) =~= le_bytes(i as nat, 16));
            law_le_round_trip(i as nat, 16);
        }
        assert(resolved(t) is Int256 ==> b.take(16) =~= signed_le(i, 16));
    }
}

/// An IPv4 address given as a number is that number, an IPv6 address the octets
/// that its text was answered to spell.
pub proof fn law_addresses_read_back(
    n: NumberView,
    u: u64,
    s: Seq<char>,
    octets: Seq<u8>,
    t: Parsed,
    col: Seq<char>,
    a: AnswersView,
)
    requires
        n.unsigned == Some(u),
        entry_of(a.addresses, s) == Some(Some(octets)),
    ensures
        resolved(t) is IPv4 ==> match typed_bytes(Json::Number(n), t, col, a) {
            Ok(b) => b.len() == 4 && le_nat(b) == u,
            Err(_) => u > u32::MAX,
        },
        resolved(t) is IPv6 ==> typed_bytes(Json::String(s), t, col, a) == Ok::<
            Seq<u8>,
            DynamicErrorView,
        >(octets),
{
    lemma_pow256();
    if u <= u32::MAX {
        law_le_round_trip(u as nat, 4);
    }
}

// ---------------------------------------------------------------------------
// Nulls, defaults and rows
// ---------------------------------------------------------------------------

/// In a nullable column NULL is the one byte 1, and a value a byte 0 and the
/// value; elsewhere NULL is the default and a value stands alone.
pub proof fn law_null_markers(v: Json, t: Parsed, col: Seq<char>, a: AnswersView)
    ensures
        t.nullable && v is Null ==> value_bytes(v, t, col, a) == Ok::<Seq<u8>, DynamicErrorView>(
            seq![1u8],
        ),
        t.nullable && !(v is Null) ==> match value_bytes(v, t, col, a) {
            Ok(b) => b.len() > 0 && b[0] == 0 && typed_bytes(v, t, col, a) == Ok::<
                Seq<u8>,
                DynamicErrorView,
            >(b.skip(1)),
            Err(e) => typed_bytes(v, t, col, a) == Err::<Seq<u8>, DynamicErrorView>(e),
        },
        !t.nullable && !(v is Null) ==> value_bytes(v, t, col, a) == typed_bytes(v, t, col, a),
        !t.nullable && v is Null ==> value_bytes(v, t, col, a) == Ok::<Seq<u8>, DynamicErrorView>(
            default_bytes(t),
        ),
{
    if let Ok(x) = typed_bytes(v, t, col, a) {
        assert((seq![0u8] + x).skip(1) =~= x);
    }
}

/// The default of a type of fixed size is as many zeros, that of JSON the empty
/// object, and that of the rest a count of zero: an empty string, array or map.
pub proof fn law_defaults_are_empty(t: Parsed, i: int)
    ensures
        !(t.base != "Decimal"@ && t.tag is JSON) ==> (0 <= i < default_bytes(t).len()
            ==> default_bytes(t)[i] == 0),
        t.base != "Decimal"@ && (t.tag is String || t.tag is Array || t.tag is Mapping)
            ==> default_bytes(t) == seq![0u8],
        t.base != "Decimal"@ && t.tag is JSON ==> default_bytes(t) == seq![2u8, 123u8, 125u8],
{
    reveal_strlit("{}");
    if t.base != "Decimal"@ && t.tag is JSON {
        let s = "{}"@;
        vstd::utf8::is_ascii_chars_encode_utf8(s);
        let u = vstd::utf8::encode_utf8(s);
        assert(s[0] == '{' && s[1] == '}');
        assert(u =~= seq![123u8, 125u8]);
        assert(var_uint(2) =~= seq![2u8]);
        assert(default_bytes(t) =~= seq![2u8, 123u8, 125u8]);
    }
}

/// The forms of the columns of a row.
pub open spec fn column_forms(
    row: Seq<(Seq<char>, Json)>,
    columns: Seq<ColumnView>,
    raw: Option<(Seq<char>, Seq<u8>)>,
    a: AnswersView,
) -> Seq<Seq<u8>> {
    Seq::new(columns.len(), |i: int| column_bytes(row, columns[i], raw, a)->Ok_0)
}

/// A row is the forms of its columns in order: column `i` holds what the value
/// under its own name is encoded as by its own type, or its raw bytes.
pub proof fn law_a_row_is_its_columns(
    row: Seq<(Seq<char>, Json)>,
    columns: Seq<ColumnView>,
    raw: Option<(Seq<char>, Seq<u8>)>,
    a: AnswersView,
)
    ensures
        match row_wire(row, columns, raw, a) {
            Ok(b) => {
                &&& b == flat(column_forms(row, columns, raw, a))
                &&& forall|i: int|
                    0 <= i < columns.len() ==> column_bytes(
                        row,
                        #[trigger] columns[i],
                        raw,
                        a,
                    ) is Ok
            },
            Err(e) => exists|i: int|
                0 <= i < columns.len() && column_bytes(row, #[trigger] columns[i], raw, a) == Err::<
                    Seq<u8>,
                    DynamicErrorView,
                >(e),
        },
    decreases columns.len(),
{
    let forms = column_forms(row, columns, raw, a);
    if columns.len() > 0 {
        let before = columns.drop_last();
        let n = columns.len() - 1;
        law_a_row_is_its_columns(row, before, raw, a);
        assert(forms.drop_last() =~= column_forms(row, before, raw, a));
        assert forall|i: int| 0 <= i < n implies #[trigger] before[i] == columns[i] by {}
        if let Err(e) = row_wire(row, before, raw, a) {
            let i = choose|i: int|
                0 <= i < before.len() && column_bytes(row, #[trigger] before[i], raw, a) == Err::<
                    Seq<u8>,
                    DynamicErrorView,
                >(e);
            assert(column_bytes(row, columns[i], raw, a) == Err::<Seq<u8>, DynamicErrorView>(e));
        } else if let Err(e) = column_bytes(row, columns[n], raw, a) {
            assert(row_wire(row, columns, raw, a) == Err::<Seq<u8>, DynamicErrorView>(e));
        } else {
            assert forall|i: int| 0 <= i < columns.len() implies column_bytes(
                row,
                #[trigger] columns[i],
                raw,
                a,
            ) is Ok by {
                if i < n {
                    assert(column_bytes(row, before[i], raw, a) is Ok);
                }
            }
        }
    } else {
        assert(forms =~= seq![]);
    }
}

/// A column takes the value under its own name: the member of the row with that
/// name, null where there is none, and raw bytes only where they are for it.
pub proof fn law_a_column_takes_its_own_value(
    row: Seq<(Seq<char>, Json)>,
    c: ColumnView,
    raw: Option<(Seq<char>, Seq<u8>)>,
    a: AnswersView,
    i: int,
)
    requires
        raw matches Some((name, _)) ==> name != c.name,
    ensures
        !has_key(row, c.name) ==> column_bytes(row, c, raw, a) == value_bytes(
            Json::Null,
            c.ty,
            c.name,
            a,
        ),
        0 <= i < row.len() && row[i].0 == c.name && (forall|j: int|
            0 <= j < i ==> (#[trigger] row[j]).0 != c.name) ==> column_bytes(row, c, raw, a)
            == value_bytes(row[i].1, c.ty, c.name, a),
{
    law_members_are_found_by_name(row, c.name);
    if 0 <= i < row.len() && row[i].0 == c.name && (forall|j: int|
        0 <= j < i ==> (#[trigger] row[j]).0 != c.name) {
        let v = member(row, c.name)->Some_0;
        let k = choose|k: int|
            0 <= k < row.len() && #[trigger] row[k] == (c.name, v) && forall|j: int|
                0 <= j < k ==> (#[trigger] row[j]).0 != c.name;
        assert(k == i) by {
            if k < i {
                assert(row[k].0 != c.name);
            } else if i < k {
                assert(row[i].0 != c.name);
            }
        }
    }
}

/// Raw bytes are written as a string, behind a not-null marker where the column
/// is nullable, whatever the row holds under the name.
pub proof fn law_raw_bytes_are_passed_on(
    row: Seq<(Seq<char>, Json)>,
    c: ColumnView,
    bytes: Seq<u8>,
    a: AnswersView,
)
    requires
        bytes.len() <= u64::MAX,
    ensures
        column_bytes(row, c, Some((c.name, bytes)), a) matches Ok(b) && {
            let p: int = if c.ty.nullable {
                1
            } else {
                0
            };
            &&& c.ty.nullable ==> b[0] == 0
            &&& var_uint_at(b, p) matches Ok((len, q)) && q + len == b.len() && b.skip(q) == bytes
        },
{
    let b = column_bytes(row, c, Some((c.name, bytes)), a)->Ok_0;
    let p: int = if c.ty.nullable {
        1
    } else {
        0
    };
    let s = string(bytes);
    assert(stands_at(b, p, s)) by {
        assert(b.subrange(p, p + s.len()) =~= s);
    }
    lemma_stands_split(b, p, var_uint(bytes.len()), bytes);
    law_var_uint_round_trip(b, p, bytes.len() as u64);
    let q = p + var_uint(bytes.len()).len();
    assert(b.skip(q) =~= b.subrange(q, q + bytes.len()));
}

// ---------------------------------------------------------------------------
// JSON texts
// ---------------------------------------------------------------------------

/// Item `i` of a list, behind a comma where it is not the first.
pub open spec fn item_text(vs: Seq<Json>, i: int) -> Seq<char> {
    (if i > 0 {
        seq![',']
    } else {
        seq![]
    }) + compact(vs[i])
}

/// Entry `i` of an object, behind a comma where it is not the first.
pub open spec fn entry_text(es: Seq<(Seq<char>, Json)>, i: int) -> Seq<char> {
    (if i > 0 {
        seq![',']
    } else {
        seq![]
    }) + json_string(es[i].0) + seq![':'] + compact(es[i].1)
}

/// The compact text of an array holds the texts of its items, in order.
pub proof fn law_compact_arrays(vs: Seq<Json>)
    ensures
        compact(Json::Array(vs)) == seq!['['] + flat(
            Seq::new(vs.len(), |i: int| item_text(vs, i)),
        ) + seq![']'],
{
    lemma_compact_items(vs);
}

proof fn lemma_compact_items(vs: Seq<Json>)
    ensures
        compact_items(vs) == flat(Seq::new(vs.len(), |i: int| item_text(vs, i))),
    decreases vs.len(),
{
    let parts = Seq::new(vs.len(), |i: int| item_text(vs, i));
    if vs.len() > 0 {
        let n = vs.len() - 1;
        let before = vs.subrange(0, n);
        lemma_compact_items(before);
        assert(parts.drop_last() =~= Seq::new(before.len(), |i: int| item_text(before, i)));
        assert(compact_items(vs) =~= flat(parts));
    } else {
        assert(parts =~= seq![]);
    }
}

/// The compact text of an object holds the names and the texts of its members,
/// each under its own name, in order.
pub proof fn law_compact_objects(es: Seq<(Seq<char>, Json)>)
    ensures
        compact(Json::Object(es)) == seq!['{'] + flat(
            Seq::new(es.len(), |i: int| entry_text(es, i)),
        ) + seq!['}'],
{
    lemma_compact_entries(es);
}

proof fn lemma_compact_entries(es: Seq<(Seq<char>, Json)>)
    ensures
        compact_entries(es) == flat(Seq::new(es.len(), |i: int| entry_text(es, i))),
    decreases es.len(),
{
    let parts = Seq::new(es.len(), |i: int| entry_text(es, i));
    if es.len() > 0 {
        let n = es.len() - 1;
        let before = es.subrange(0, n);
        lemma_compact_entries(before);
        assert(parts.drop_last() =~= Seq::new(before.len(), |i: int| entry_text(before, i)));
        assert(compact_entries(es) =~= flat(parts));
    } else {
        assert(parts =~= seq![]);
    }
}

} // verus!
