//! What the JSON text of a cell says of its value.

use vstd::prelude::*;

use crate::native::address::{
    hex, hex_digit, ipv6_text, is_mapped, longest_run, quad, segment, segments, zero_run,
};
use crate::native::columns::{fixed_size, Ty};
use crate::native::io::{
    law_le_round_trip, law_var_uint_round_trip, le_bytes, le_nat, lemma_pow256, lemma_stands_split,
    stands_at, string, twos, var_uint,
};
use crate::native::json::{json_at, json_fields, json_run, member_name, reversed_hex, Gap};
use crate::native::object_laws::{joined, lemma_joined_push};
use crate::native::quote::quoted_bytes;
use crate::native::texts::{lookup_text, CellKey};
use crate::text::decimal_bytes;

verus! {

// ---------------------------------------------------------------------------
// Numbers
// ---------------------------------------------------------------------------

/// The value of a digit, lower-case letters for ten and more.
pub open spec fn digit_value(c: u8) -> nat {
    if 48 <= c <= 57 {
        (c - 48) as nat
    } else if 97 <= c <= 102 {
        (c - 87) as nat
    } else {
        99
    }
}

/// The number that digits spell in a base.
pub open spec fn spelled_value(s: Seq<u8>, base: nat) -> nat
    decreases s.len(),
{
    if s.len() == 0 {
        0
    } else {
        base * spelled_value(s.drop_last(), base) + digit_value(s.last())
    }
}

/// Whether `s` is the number `n` in digits of a base, without leading zeros.
pub open spec fn spells(s: Seq<u8>, base: nat, n: nat) -> bool {
    &&& s.len() > 0
    &&& s.len() > 1 ==> s[0] != 48
    &&& forall|i: int| 0 <= i < s.len() ==> digit_value(#[trigger] s[i]) < base
    &&& spelled_value(s, base) == n
}

proof fn lemma_decimal_spells(n: nat)
    ensures
        spells(decimal_bytes(n), 10, n),
        n > 0 ==> decimal_bytes(n)[0] != 48,
    decreases n,
{
    let s = decimal_bytes(n);
    if n < 10 {
        assert(s.drop_last() =~= seq![]);
        assert(spelled_value(s.drop_last(), 10) == 0);
    } else {
        lemma_decimal_spells(n / 10);
        assert(s.drop_last() =~= decimal_bytes(n / 10));
        assert(s[0] == decimal_bytes(n / 10)[0]);
        assert forall|i: int| 0 <= i < s.len() implies digit_value(#[trigger] s[i]) < 10 by {
            if i < s.len() - 1 {
                assert(s[i] == decimal_bytes(n / 10)[i]);
            }
        }
    }
}

proof fn lemma_hex_spells(n: nat)
    ensures
        spells(hex(n), 16, n),
        n > 0 ==> hex(n)[0] != 48,
    decreases n,
{
    let s = hex(n);
    if n < 16 {
        assert(s.drop_last() =~= seq![]);
        assert(spelled_value(s.drop_last(), 16) == 0);
    } else {
        lemma_hex_spells(n / 16);
        assert(s.drop_last() =~= hex(n / 16));
        assert(s[0] == hex(n / 16)[0]);
        assert forall|i: int| 0 <= i < s.len() implies digit_value(#[trigger] s[i]) < 16 by {
            if i < s.len() - 1 {
                assert(s[i] == hex(n / 16)[i]);
            }
        }
    }
}

proof fn lemma_reversed_hex_spells(b: Seq<u8>)
    ensures
        reversed_hex(b).len() == 2 * b.len(),
        forall|i: int|
            0 <= i < reversed_hex(b).len() ==> digit_value(#[trigger] reversed_hex(b)[i]) < 16,
        spelled_value(reversed_hex(b), 16) == le_nat(b),
    decreases b.len(),
{
    if b.len() > 0 {
        let rest = b.drop_first();
        lemma_reversed_hex_spells(rest);
        let x = hex_digit((b[0] / 16) as nat);
        let y = hex_digit((b[0] % 16) as nat);
        let s = reversed_hex(b);
        assert(s.last() == y);
        assert(s.drop_last().last() == x);
        assert(s.drop_last().drop_last() =~= reversed_hex(rest));
        assert(spelled_value(s.drop_last(), 16) == 16 * le_nat(rest) + digit_value(x));
        assert forall|i: int| 0 <= i < s.len() implies digit_value(#[trigger] s[i]) < 16 by {
            if i < s.len() - 2 {
                assert(s[i] == reversed_hex(rest)[i]);
            }
        }
    }
}

/// An unsigned number, a `Date` and a `DateTime` are shown as the number that
/// their little-endian bytes are, in decimal.
pub proof fn law_unsigned_numbers_are_spelled_out(
    d: Seq<u8>,
    pos: int,
    t: Ty,
    width: nat,
    texts: Seq<(CellKey, Seq<u8>)>,
)
    requires
        t is UInt8 || t is UInt16 || t is UInt32 || t is UInt64 || t is UInt128 || t is Date
            || t is DateTime || t is Time,
        fixed_size(t) == Some(width as usize),
        width <= 16,
        0 <= pos,
        pos + width <= d.len(),
    ensures
        json_at(d, pos, t, texts) matches Ok((s, end)) && end == pos + width && spells(
            s,
            10,
            le_nat(d.subrange(pos, pos + width)),
        ),
{
    lemma_decimal_spells(le_nat(d.subrange(pos, pos + width)));
}

/// A signed number, an enum, a decimal, a `Date32` and a `DateTime64` are shown
/// as the number that their little-endian bytes are in two's complement, in
/// decimal, with a minus sign where it is negative.
pub proof fn law_signed_numbers_are_spelled_out(
    d: Seq<u8>,
    pos: int,
    t: Ty,
    width: nat,
    texts: Seq<(CellKey, Seq<u8>)>,
)
    requires
        t is Int8 || t is Int16 || t is Int32 || t is Int64 || t is Int128 || t is Enum8
            || t is Enum16 || t is Decimal32 || t is Decimal64 || t is Decimal128 || t is Date32
            || t is DateTime64 || t is Time64,
        fixed_size(t) == Some(width as usize),
        width <= 16,
        0 <= pos,
        pos + width <= d.len(),
    ensures
        ({
            let n = twos(le_nat(d.subrange(pos, pos + width)), width);
            json_at(d, pos, t, texts) matches Ok((s, end)) && end == pos + width && if n < 0 {
                s[0] == 45 && spells(s.skip(1), 10, (-n) as nat)
            } else {
                spells(s, 10, n as nat)
            }
        }),
{
    let n = twos(le_nat(d.subrange(pos, pos + width)), width);
    if n < 0 {
        lemma_decimal_spells((-n) as nat);
        assert((seq![45u8] + decimal_bytes((-n) as nat)).skip(1) =~= decimal_bytes((-n) as nat));
    } else {
        lemma_decimal_spells(n as nat);
    }
}

/// A 256-bit number is shown as a string of its sixty-four hexadecimal digits.
pub proof fn law_wide_numbers_are_spelled_in_hex(
    d: Seq<u8>,
    pos: int,
    t: Ty,
    texts: Seq<(CellKey, Seq<u8>)>,
)
    requires
        t is Int256 || t is UInt256 || t is Decimal256,
        0 <= pos,
        pos + 32 <= d.len(),
    ensures
        json_at(d, pos, t, texts) matches Ok((s, end)) && end == pos + 32 && s.len() == 66 && s[0]
            == 34 && s[65] == 34 && (forall|i: int|
            1 <= i < 65 ==> digit_value(#[trigger] s[i]) < 16) && spelled_value(
            s.subrange(1, 65),
            16,
        ) == le_nat(d.subrange(pos, pos + 32)),
{
    let b = d.subrange(pos, pos + 32);
    let h = reversed_hex(b);
    lemma_reversed_hex_spells(b);
    let s = seq![34u8] + h + seq![34u8];
    assert(s.subrange(1, 65) =~= h);
    assert forall|i: int| 1 <= i < 65 implies digit_value(#[trigger] s[i]) < 16 by {
        assert(s[i] == h[i - 1]);
    }
}

/// A UUID is shown as a string of the digits of its two halves, each a
/// little-endian number, with hyphens behind the eighth, twelfth, sixteenth and
/// twentieth digit.
pub proof fn law_uuids_are_spelled_in_hex(d: Seq<u8>, pos: int, texts: Seq<(CellKey, Seq<u8>)>)
    requires
        0 <= pos,
        pos + 16 <= d.len(),
    ensures
        json_at(d, pos, Ty::Uuid, texts) matches Ok((s, end)) && {
            let first = s.subrange(1, 9) + s.subrange(10, 14) + s.subrange(15, 19);
            let second = s.subrange(20, 24) + s.subrange(25, 37);
            &&& end == pos + 16
            &&& s.len() == 38
            &&& s[0] == 34 && s[37] == 34
            &&& s[9] == 45 && s[14] == 45 && s[19] == 45 && s[24] == 45
            &&& spelled_value(first, 16) == le_nat(d.subrange(pos, pos + 8))
            &&& spelled_value(second, 16) == le_nat(d.subrange(pos + 8, pos + 16))
        },
{
    let b = d.subrange(pos, pos + 16);
    let x = reversed_hex(b.subrange(0, 8));
    let y = reversed_hex(b.subrange(8, 16));
    lemma_reversed_hex_spells(b.subrange(0, 8));
    lemma_reversed_hex_spells(b.subrange(8, 16));
    assert(b.subrange(0, 8) =~= d.subrange(pos, pos + 8));
    assert(b.subrange(8, 16) =~= d.subrange(pos + 8, pos + 16));
    if let Ok((s, end)) = json_at(d, pos, Ty::Uuid, texts) {
        assert(s.subrange(1, 9) + s.subrange(10, 14) + s.subrange(15, 19) =~= x);
        assert(s.subrange(20, 24) + s.subrange(25, 37) =~= y);
    }
}

// ---------------------------------------------------------------------------
// IPv6
// ---------------------------------------------------------------------------

/// Whether the segments from `from` to `to` are zero.
pub open spec fn zeros(a: Seq<u8>, from: int, to: int) -> bool {
    forall|i: int| from <= i < to ==> #[trigger] segment(a, i) == 0
}

/// The segments from `from` to `to`, each in base sixteen, a colon before each
/// but the first.
pub open spec fn spelled_segments(a: Seq<u8>, from: int, to: int, parts: Seq<Seq<u8>>) -> bool {
    &&& parts.len() == to - from
    &&& forall|i: int|
        0 <= i < parts.len() ==> spells(#[trigger] parts[i], 16, segment(a, from + i))
}

/// The parts with a colon before each but the first.
pub open spec fn colon_joined(parts: Seq<Seq<u8>>) -> Seq<u8>
    decreases parts.len(),
{
    if parts.len() == 0 {
        seq![]
    } else if parts.len() == 1 {
        parts[0]
    } else {
        colon_joined(parts.drop_last()) + seq![58u8] + parts.last()
    }
}

proof fn lemma_segments(a: Seq<u8>, from: int, to: int) -> (parts: Seq<Seq<u8>>)
    requires
        from <= to,
    ensures
        spelled_segments(a, from, to, parts),
        segments(a, from, to) == colon_joined(parts),
    decreases to - from,
{
    if to <= from {
        seq![]
    } else {
        let before = lemma_segments(a, from, to - 1);
        let parts = before.push(hex(segment(a, to - 1)));
        lemma_hex_spells(segment(a, to - 1));
        assert(parts.drop_last() =~= before);
        assert forall|i: int| 0 <= i < parts.len() implies spells(
            #[trigger] parts[i],
            16,
            segment(a, from + i),
        ) by {
            if i < before.len() {
                assert(parts[i] == before[i]);
            }
        }
        parts
    }
}

proof fn lemma_zero_run(a: Seq<u8>, n: nat)
    ensures
        zero_run(a, n) <= n,
        zeros(a, n - zero_run(a, n), n as int),
        forall|from: int| 0 <= from <= n && #[trigger] zeros(a, from, n as int) ==> n - from
            <= zero_run(a, n),
    decreases n,
{
    if n > 0 {
        lemma_zero_run(a, (n - 1) as nat);
        if segment(a, n - 1) == 0 {
            assert forall|i: int| n - zero_run(a, n) <= i < n implies #[trigger] segment(a, i)
                == 0 by {
                if i < n - 1 {
                }
            }
        }
        assert forall|from: int| 0 <= from <= n && #[trigger] zeros(a, from, n as int) implies n
            - from <= zero_run(a, n) by {
            if from < n {
                assert(segment(a, n - 1) == 0);
                assert(zeros(a, from, n - 1));
            }
        }
    }
}

proof fn lemma_longest_run(a: Seq<u8>, n: nat)
    ensures
        ({
            let (start, len) = longest_run(a, n);
            &&& start + len <= n
            &&& zeros(a, start as int, (start + len) as int)
            &&& forall|from: int, to: int|
                0 <= from <= to <= n && #[trigger] zeros(a, from, to) ==> to - from < len || (to
                    - from == len && (start <= from || len == 0))
        }),
    decreases n,
{
    lemma_zero_run(a, n);
    if n > 0 {
        lemma_longest_run(a, (n - 1) as nat);
        let (start, len) = longest_run(a, n);
        assert forall|from: int, to: int|
            0 <= from <= to <= n && #[trigger] zeros(a, from, to) implies to - from < len || (to
            - from == len && (start <= from || len == 0)) by {
            if to == n {
                assert(n - from <= zero_run(a, n));
            } else {
                assert(0 <= from <= to <= n - 1);
            }
        }
    }
}

/// How an IPv6 address is shown. One that maps an IPv4 address ends in its
/// dotted quad. Of any other, the first of the longest runs of at least two zero
/// segments is written as two colons, and every segment outside it in base
/// sixteen.
pub proof fn law_ipv6_addresses_are_compressed(a: Seq<u8>)
    ensures
        (zeros(a, 0, 5) && segment(a, 5) == 0xffff) ==> ipv6_text(a) == seq![
            58u8,
            58u8,
            102u8,
            102u8,
            102u8,
            102u8,
            58u8,
        ] + quad(a[12], a[13], a[14], a[15]),
        !(zeros(a, 0, 5) && segment(a, 5) == 0xffff) ==> {
            ||| (exists|parts: Seq<Seq<u8>>| #[trigger]
                spelled_segments(a, 0, 8, parts) && ipv6_text(a) == colon_joined(parts)) && (
            forall|i: int| 0 <= i < 7 ==> !(#[trigger] segment(a, i) == 0 && segment(a, i + 1) == 0))
            ||| exists|from: int, to: int, head: Seq<Seq<u8>>, tail: Seq<Seq<u8>>|
                #![trigger spelled_segments(a, 0, from, head), spelled_segments(a, to, 8, tail)]
                {
                    &&& 0 <= from
                    &&& from + 2 <= to <= 8
                    &&& zeros(a, from, to)
                    &&& spelled_segments(a, 0, from, head)
                    &&& spelled_segments(a, to, 8, tail)
                    &&& ipv6_text(a) == colon_joined(head) + seq![58u8, 58u8] + colon_joined(tail)
                    &&& forall|x: int, y: int|
                        0 <= x <= y <= 8 && #[trigger] zeros(a, x, y) ==> y - x < to - from || (y
                            - x == to - from && from <= x)
                }
        },
{
    lemma_longest_run(a, 8);
    let (start, len) = longest_run(a, 8);
    assert(is_mapped(a) == (zeros(a, 0, 5) && segment(a, 5) == 0xffff));
    if !is_mapped(a) {
        if len > 1 {
            let from = start as int;
            let to = start + len;
            let head = lemma_segments(a, 0, from);
            let tail = lemma_segments(a, to as int, 8);
            assert(spelled_segments(a, 0, from, head) && spelled_segments(a, to as int, 8, tail));
        } else {
            let parts = lemma_segments(a, 0, 8);
            assert(spelled_segments(a, 0, 8, parts));
            assert forall|i: int| 0 <= i < 7 implies !(#[trigger] segment(a, i) == 0 && segment(
                a,
                i + 1,
            ) == 0) by {
                if segment(a, i) == 0 && segment(a, i + 1) == 0 {
                    assert forall|k: int| i <= k < i + 2 implies #[trigger] segment(a, k) == 0 by {
                        if k != i {
                            assert(k == i + 1);
                        }
                    }
                    assert(zeros(a, i, i + 2));
                }
            }
        }
    }
}

// ---------------------------------------------------------------------------
// Strings
// ---------------------------------------------------------------------------

/// A string, of its own length or of a fixed one, is shown as its bytes in
/// quotes; a document is shown as it is.
pub proof fn law_strings_are_shown_in_quotes(
    d: Seq<u8>,
    pos: int,
    t: Ty,
    s: Seq<u8>,
    texts: Seq<(CellKey, Seq<u8>)>,
)
    requires
        0 <= pos,
        s.len() <= u64::MAX,
    ensures
        (t is String || t is Json) && stands_at(d, pos, string(s)) ==> json_at(d, pos, t, texts)
            == Ok::<(Seq<u8>, int), Gap>((quoted_bytes(s), pos + string(s).len())),
        (t is Dynamic || t is NewJson || t is Variant) && stands_at(d, pos, string(s)) ==> json_at(
            d,
            pos,
            t,
            texts,
        ) == Ok::<(Seq<u8>, int), Gap>((s, pos + string(s).len())),
        t == Ty::FixedString(s.len() as usize) && s.len() <= usize::MAX && stands_at(d, pos, s)
            ==> json_at(d, pos, t, texts) == Ok::<(Seq<u8>, int), Gap>(
            (quoted_bytes(s), pos + s.len()),
        ),
{
    if stands_at(d, pos, string(s)) {
        let head = var_uint(s.len());
        lemma_stands_split(d, pos, head, s);
        law_var_uint_round_trip(d, pos, s.len() as u64);
    }
}

/// A nullable value is shown as `null` where its marker is set, and as the value
/// behind the marker where it is not; a value of low cardinality or of a simple
/// aggregate is shown as the value that it is.
pub proof fn law_wrappers_show_the_value_within(
    d: Seq<u8>,
    pos: int,
    x: Ty,
    texts: Seq<(CellKey, Seq<u8>)>,
)
    requires
        0 <= pos < d.len(),
    ensures
        d[pos] != 0 ==> json_at(d, pos, Ty::Nullable(Box::new(x)), texts) == Ok::<
            (Seq<u8>, int),
            Gap,
        >((seq![110u8, 117u8, 108u8, 108u8], pos + 1)),
        d[pos] == 0 ==> json_at(d, pos, Ty::Nullable(Box::new(x)), texts) == json_at(
            d,
            pos + 1,
            x,
            texts,
        ),
        json_at(d, pos, Ty::LowCardinality(Box::new(x)), texts) == json_at(d, pos, x, texts),
        json_at(d, pos, Ty::SimpleAggregateFunction(Box::new(x)), texts) == json_at(
            d,
            pos,
            x,
            texts,
        ),
{
}

// ---------------------------------------------------------------------------
// Composites
// ---------------------------------------------------------------------------

proof fn lemma_joined_nonempty(items: Seq<Seq<u8>>, item: Seq<u8>)
    ensures
        joined(items.push(item)) == joined(items) + (if items.len() == 0 {
            seq![]
        } else {
            seq![44u8]
        }) + item,
{
    lemma_joined_push(items, item);
    if items.len() == 0 {
        assert(joined(items) =~= seq![]);
        assert(joined(items) + seq![] + item =~= item);
    }
}

proof fn lemma_run_of_items(
    d: Seq<u8>,
    x: Ty,
    marks: Seq<int>,
    items: Seq<Seq<u8>>,
    texts: Seq<(CellKey, Seq<u8>)>,
)
    requires
        marks.len() == items.len() + 1,
        forall|i: int|
            0 <= i < items.len() ==> json_at(d, #[trigger] marks[i], x, texts) == Ok::<
                (Seq<u8>, int),
                Gap,
            >((items[i], marks[i + 1])),
    ensures
        json_run(d, marks[0], Ty::Array(Box::new(x)), items.len(), texts) == Ok::<
            (Seq<u8>, int),
            Gap,
        >((joined(items), marks.last())),
    decreases items.len(),
{
    if items.len() > 0 {
        let n = items.len() - 1;
        let before = items.drop_last();
        let mb = marks.drop_last();
        assert forall|i: int| 0 <= i < before.len() implies json_at(
            d,
            #[trigger] mb[i],
            x,
            texts,
        ) == Ok::<(Seq<u8>, int), Gap>((before[i], mb[i + 1])) by {
            assert(mb[i] == marks[i]);
        }
        lemma_run_of_items(d, x, mb, before, texts);
        assert(json_at(d, marks[n], x, texts) is Ok);
        lemma_joined_nonempty(before, items.last());
        assert(before.push(items.last()) =~= items);
    } else {
        assert(joined(items) =~= seq![]);
    }
}

/// An array is shown as the texts of its items, each item behind the one before
/// it, in brackets and with commas between them.
pub proof fn law_arrays_show_their_items(
    d: Seq<u8>,
    pos: int,
    x: Ty,
    marks: Seq<int>,
    items: Seq<Seq<u8>>,
    texts: Seq<(CellKey, Seq<u8>)>,
)
    requires
        0 <= pos,
        items.len() <= u64::MAX,
        marks.len() == items.len() + 1,
        stands_at(d, pos, var_uint(items.len())),
        marks[0] == pos + var_uint(items.len()).len(),
        forall|i: int|
            0 <= i < items.len() ==> json_at(d, #[trigger] marks[i], x, texts) == Ok::<
                (Seq<u8>, int),
                Gap,
            >((items[i], marks[i + 1])),
    ensures
        json_at(d, pos, Ty::Array(Box::new(x)), texts) == Ok::<(Seq<u8>, int), Gap>(
            (seq![91u8] + joined(items) + seq![93u8], marks.last()),
        ),
{
    law_var_uint_round_trip(d, pos, items.len() as u64);
    lemma_run_of_items(d, x, marks, items, texts);
}

/// [`json_at`], as a whole.
#[verifier::opaque]
pub open spec fn shown_as(
    d: Seq<u8>,
    pos: int,
    t: Ty,
    texts: Seq<(CellKey, Seq<u8>)>,
    text: Seq<u8>,
    end: int,
) -> bool {
    json_at(d, pos, t, texts) == Ok::<(Seq<u8>, int), Gap>((text, end))
}

/// [`json_run`], as a whole.
#[verifier::opaque]
pub open spec fn run_shown_as(
    d: Seq<u8>,
    pos: int,
    t: Ty,
    n: nat,
    texts: Seq<(CellKey, Seq<u8>)>,
    text: Seq<u8>,
    end: int,
) -> bool {
    json_run(d, pos, t, n, texts) == Ok::<(Seq<u8>, int), Gap>((text, end))
}

#[verifier::rlimit(40)]
proof fn lemma_next_entry(
    d: Seq<u8>,
    pos: int,
    k: Ty,
    v: Ty,
    texts: Seq<(CellKey, Seq<u8>)>,
    before: Seq<Seq<u8>>,
    p: int,
    key: Seq<u8>,
    q: int,
    value: Seq<u8>,
    r: int,
)
    requires
        run_shown_as(
            d,
            pos,
            Ty::Mapping(Box::new(k), Box::new(v)),
            before.len(),
            texts,
            joined(before),
            p,
        ),
        shown_as(d, p, k, texts, key, q),
        shown_as(d, q, v, texts, value, r),
    ensures
        run_shown_as(
            d,
            pos,
            Ty::Mapping(Box::new(k), Box::new(v)),
            before.len() + 1,
            texts,
            joined(before.push(entry_text(key, value))),
            r,
        ),
{
    reveal(shown_as);
    reveal(run_shown_as);
    lemma_joined_nonempty(before, entry_text(key, value));
    let gap: Seq<u8> = if before.len() == 0 {
        seq![]
    } else {
        seq![44u8]
    };
    assert(joined(before.push(entry_text(key, value))) =~= joined(before) + gap + member_name(key)
        + seq![58u8] + value);
}

proof fn lemma_run_of_entries(
    d: Seq<u8>,
    k: Ty,
    v: Ty,
    marks: Seq<int>,
    keys: Seq<Seq<u8>>,
    values: Seq<Seq<u8>>,
    texts: Seq<(CellKey, Seq<u8>)>,
    n: nat,
)
    requires
        n <= keys.len() == values.len(),
        marks.len() == 2 * keys.len() + 1,
        forall|i: int|
            0 <= i < keys.len() ==> shown_as(
                d,
                marks[2 * i],
                k,
                texts,
                #[trigger] keys[i],
                marks[2 * i + 1],
            ),
        forall|i: int|
            0 <= i < keys.len() ==> shown_as(
                d,
                marks[2 * i + 1],
                v,
                texts,
                #[trigger] values[i],
                marks[2 * i + 2],
            ),
    ensures
        run_shown_as(
            d,
            marks[0],
            Ty::Mapping(Box::new(k), Box::new(v)),
            n,
            texts,
            joined(entry_texts(keys, values).take(n as int)),
            marks[2 * n as int],
        ),
    decreases n,
{
    let all = entry_texts(keys, values);
    if n > 0 {
        let m = n - 1;
        lemma_run_of_entries(d, k, v, marks, keys, values, texts, m as nat);
        let before = all.take(m);
        let key = keys[m];
        let value = values[m];
        lemma_next_entry(
            d,
            marks[0],
            k,
            v,
            texts,
            before,
            marks[2 * m],
            key,
            marks[2 * m + 1],
            value,
            marks[2 * m + 2],
        );
        assert(all.take(n as int) =~= before.push(entry_text(key, value)));
    } else {
        reveal(run_shown_as);
        assert(joined(all.take(0)) =~= seq![]);
    }
}

/// A member of an object: its name, in quotes where the key is not shown as a
/// string by itself, and its value.
pub open spec fn entry_text(key: Seq<u8>, value: Seq<u8>) -> Seq<u8> {
    (if key.len() > 0 && key[0] == 34 {
        key
    } else {
        quoted_bytes(key)
    }) + seq![58u8] + value
}

/// The members of an object.
pub open spec fn entry_texts(keys: Seq<Seq<u8>>, values: Seq<Seq<u8>>) -> Seq<Seq<u8>> {
    Seq::new(keys.len(), |i: int| entry_text(keys[i], values[i]))
}

/// A map is shown as an object whose members are its entries, in order: each key
/// and, behind it, its own value.
#[verifier::rlimit(40)]
pub proof fn law_maps_show_their_entries(
    d: Seq<u8>,
    pos: int,
    k: Ty,
    v: Ty,
    marks: Seq<int>,
    keys: Seq<Seq<u8>>,
    values: Seq<Seq<u8>>,
    texts: Seq<(CellKey, Seq<u8>)>,
)
    requires
        0 <= pos,
        keys.len() == values.len() <= u64::MAX,
        marks.len() == 2 * keys.len() + 1,
        stands_at(d, pos, var_uint(keys.len())),
        marks[0] == pos + var_uint(keys.len()).len(),
        forall|i: int|
            0 <= i < keys.len() ==> json_at(d, marks[2 * i], k, texts) == Ok::<
                (Seq<u8>, int),
                Gap,
            >((#[trigger] keys[i], marks[2 * i + 1])),
        forall|i: int|
            0 <= i < keys.len() ==> json_at(d, marks[2 * i + 1], v, texts) == Ok::<
                (Seq<u8>, int),
                Gap,
            >((#[trigger] values[i], marks[2 * i + 2])),
    ensures
        json_at(d, pos, Ty::Mapping(Box::new(k), Box::new(v)), texts) == Ok::<
            (Seq<u8>, int),
            Gap,
        >((seq![123u8] + joined(entry_texts(keys, values)) + seq![125u8], marks.last())),
{
    law_var_uint_round_trip(d, pos, keys.len() as u64);
    assert forall|i: int| 0 <= i < keys.len() implies shown_as(
        d,
        marks[2 * i],
        k,
        texts,
        #[trigger] keys[i],
        marks[2 * i + 1],
    ) by {
        reveal(shown_as);
    }
    assert forall|i: int| 0 <= i < keys.len() implies shown_as(
        d,
        marks[2 * i + 1],
        v,
        texts,
        #[trigger] values[i],
        marks[2 * i + 2],
    ) by {
        reveal(shown_as);
    }
    lemma_run_of_entries(d, k, v, marks, keys, values, texts, keys.len());
    reveal(run_shown_as);
    let all = entry_texts(keys, values);
    assert(all.take(all.len() as int) =~= all);
}

proof fn lemma_run_of_fields(
    d: Seq<u8>,
    ts: Seq<Ty>,
    marks: Seq<int>,
    items: Seq<Seq<u8>>,
    texts: Seq<(CellKey, Seq<u8>)>,
)
    requires
        ts.len() == items.len(),
        marks.len() == items.len() + 1,
        forall|i: int|
            0 <= i < items.len() ==> json_at(d, #[trigger] marks[i], ts[i], texts) == Ok::<
                (Seq<u8>, int),
                Gap,
            >((items[i], marks[i + 1])),
    ensures
        json_fields(d, marks[0], ts, texts) == Ok::<(Seq<u8>, int), Gap>(
            (joined(items), marks.last()),
        ),
    decreases items.len(),
{
    if items.len() > 0 {
        let n = items.len() - 1;
        let before = items.drop_last();
        let mb = marks.drop_last();
        let tb = ts.subrange(0, n);
        assert forall|i: int| 0 <= i < before.len() implies json_at(
            d,
            #[trigger] mb[i],
            tb[i],
            texts,
        ) == Ok::<(Seq<u8>, int), Gap>((before[i], mb[i + 1])) by {
            assert(mb[i] == marks[i]);
            assert(tb[i] == ts[i]);
        }
        lemma_run_of_fields(d, tb, mb, before, texts);
        assert(json_at(d, marks[n], ts[n], texts) is Ok);
        lemma_joined_nonempty(before, items.last());
        assert(before.push(items.last()) =~= items);
    } else {
        assert(joined(items) =~= seq![]);
    }
}

/// A tuple is shown as the texts of its fields, each by its own type and behind
/// the one before it, in brackets and with commas between them.
pub proof fn law_tuples_show_their_fields(
    d: Seq<u8>,
    ts: Seq<Ty>,
    marks: Seq<int>,
    items: Seq<Seq<u8>>,
    texts: Seq<(CellKey, Seq<u8>)>,
)
    requires
        ts.len() == items.len(),
        marks.len() == items.len() + 1,
        forall|i: int|
            0 <= i < items.len() ==> json_at(d, #[trigger] marks[i], ts[i], texts) == Ok::<
                (Seq<u8>, int),
                Gap,
            >((items[i], marks[i + 1])),
    ensures
        json_at(d, marks[0], Ty::Tuple(ts), texts) == Ok::<(Seq<u8>, int), Gap>(
            (seq![91u8] + joined(items) + seq![93u8], marks.last()),
        ),
{
    lemma_run_of_fields(d, ts, marks, items, texts);
}

// ---------------------------------------------------------------------------
// Floating point
// ---------------------------------------------------------------------------

/// A floating-point number is shown as the text that was supplied for its bits,
/// and as `null` where its exponent bits are all set; a `BFloat16` is the upper
/// half of a single-precision number, and a point is a pair of doubles.
pub proof fn law_floats_are_shown_by_their_bits(
    d: Seq<u8>,
    pos: int,
    n: nat,
    texts: Seq<(CellKey, Seq<u8>)>,
    text: Seq<u8>,
)
    requires
        0 <= pos,
    ensures
        stands_at(d, pos, le_bytes(n, 4)) && n < 0x1_0000_0000 && (n / 0x80_0000) % 256 != 255
            && lookup_text(texts, CellKey::Single(n as u32)) == Some(text) ==> json_at(
            d,
            pos,
            Ty::Float32,
            texts,
        ) == Ok::<(Seq<u8>, int), Gap>((text, pos + 4)),
        stands_at(d, pos, le_bytes(n, 4)) && n < 0x1_0000_0000 && (n / 0x80_0000) % 256 == 255
            ==> json_at(d, pos, Ty::Float32, texts) == Ok::<(Seq<u8>, int), Gap>(
            (seq![110u8, 117u8, 108u8, 108u8], pos + 4),
        ),
        stands_at(d, pos, le_bytes(n, 8)) && n < 0x1_0000_0000_0000_0000 && (n
            / 0x10_0000_0000_0000) % 2048 != 2047 && lookup_text(texts, CellKey::Double(n as u64))
            == Some(text) ==> json_at(d, pos, Ty::Float64, texts) == Ok::<(Seq<u8>, int), Gap>(
            (text, pos + 8),
        ),
        stands_at(d, pos, le_bytes(n, 8)) && n < 0x1_0000_0000_0000_0000 && (n
            / 0x10_0000_0000_0000) % 2048 == 2047 ==> json_at(d, pos, Ty::Float64, texts) == Ok::<
            (Seq<u8>, int),
            Gap,
        >((seq![110u8, 117u8, 108u8, 108u8], pos + 8)),
        stands_at(d, pos, le_bytes(n, 2)) && n < 0x1_0000 && (n / 0x80) % 256 != 255
            && lookup_text(texts, CellKey::Single((n * 0x1_0000) as u32)) == Some(text) ==> json_at(
            d,
            pos,
            Ty::BFloat16,
            texts,
        ) == Ok::<(Seq<u8>, int), Gap>((text, pos + 2)),
{
    lemma_pow256();
    if n < 0x1_0000_0000 {
        law_le_round_trip(n, 4);
    }
    if n < 0x1_0000_0000_0000_0000 {
        law_le_round_trip(n, 8);
    }
    if n < 0x1_0000 {
        law_le_round_trip(n, 2);
        assert((n * 0x1_0000) / 0x80_0000 == n / 0x80) by (nonlinear_arith);
    }
}

/// A point is shown as the texts of its two numbers.
pub proof fn law_points_show_both_numbers(
    d: Seq<u8>,
    pos: int,
    x: Seq<u8>,
    y: Seq<u8>,
    texts: Seq<(CellKey, Seq<u8>)>,
)
    requires
        0 <= pos,
        json_at(d, pos, Ty::Float64, texts) == Ok::<(Seq<u8>, int), Gap>((x, pos + 8)),
        json_at(d, pos + 8, Ty::Float64, texts) == Ok::<(Seq<u8>, int), Gap>((y, pos + 16)),
    ensures
        json_at(d, pos, Ty::Point, texts) == Ok::<(Seq<u8>, int), Gap>(
            (seq![91u8] + x + seq![44u8] + y + seq![93u8], pos + 16),
        ),
{
}

/// The text that counts for a number is the latest that was supplied for it.
pub proof fn law_the_latest_text_counts(
    texts: Seq<(CellKey, Seq<u8>)>,
    key: CellKey,
    i: int,
)
    ensures
        0 <= i < texts.len() && texts[i].0 == key && (forall|j: int|
            i < j < texts.len() ==> (#[trigger] texts[j]).0 != key) ==> lookup_text(texts, key)
            == Some(texts[i].1),
        (forall|j: int| 0 <= j < texts.len() ==> (#[trigger] texts[j]).0 != key) ==> lookup_text(
            texts,
            key,
        ) is None,
    decreases texts.len(),
{
    if texts.len() > 0 {
        let before = texts.drop_last();
        law_the_latest_text_counts(before, key, i);
        assert(texts.last() == texts[texts.len() - 1]);
        assert(forall|j: int| 0 <= j < before.len() ==> before[j] == #[trigger] texts[j]);
        if texts.last().0 != key {
            assert forall|j: int| 0 <= j < before.len() && (forall|k: int|
                0 <= k < texts.len() ==> (#[trigger] texts[k]).0 != key) implies (
            #[trigger] before[j]).0 != key by {
                assert(texts[j].0 != key);
            }
            if 0 <= i < texts.len() && texts[i].0 == key && (forall|j: int|
                i < j < texts.len() ==> (#[trigger] texts[j]).0 != key) {
                assert(i < before.len());
                assert(before[i].0 == key);
                assert forall|j: int| i < j < before.len() implies (#[trigger] before[j]).0
                    != key by {
                    assert(texts[j].0 != key);
                }
            }
        }
    }
}

/// An IPv4 address is shown as the four octets of its number, the most
/// significant first, in decimal and with dots between them.
pub proof fn law_ipv4_addresses_are_dotted(
    d: Seq<u8>,
    pos: int,
    n: nat,
    texts: Seq<(CellKey, Seq<u8>)>,
)
    requires
        n < 0x1_0000_0000,
        stands_at(d, pos, le_bytes(n, 4)),
    ensures
        json_at(d, pos, Ty::IPv4, texts) matches Ok((s, end)) && end == pos + 4 && s == seq![34u8]
            + decimal_bytes(n / 0x100_0000) + seq![46u8] + decimal_bytes((n / 0x1_0000) % 256)
            + seq![46u8] + decimal_bytes((n / 0x100) % 256) + seq![46u8] + decimal_bytes(n % 256)
            + seq![34u8],
{
    let b = le_bytes(n, 4);
    lemma_four_bytes(n);
    assert(d.subrange(pos, pos + 4) == b);
    assert(d[pos] == d.subrange(pos, pos + 4)[0]);
    assert(d[pos + 1] == d.subrange(pos, pos + 4)[1]);
    assert(d[pos + 2] == d.subrange(pos, pos + 4)[2]);
    assert(d[pos + 3] == d.subrange(pos, pos + 4)[3]);
    lemma_quad(b[3], b[2], b[1], b[0]);
}

proof fn lemma_four_bytes(n: nat)
    requires
        n < 0x1_0000_0000,
    ensures
        le_bytes(n, 4).len() == 4,
        le_bytes(n, 4)[0] as nat == n % 256,
        le_bytes(n, 4)[1] as nat == (n / 0x100) % 256,
        le_bytes(n, 4)[2] as nat == (n / 0x1_0000) % 256,
        le_bytes(n, 4)[3] as nat == n / 0x100_0000,
{
    let n1 = n / 256;
    let n2 = n1 / 256;
    let n3 = n2 / 256;
    reveal_with_fuel(le_bytes, 5);
    assert(n2 == n / 0x1_0000);
    assert(n3 == n / 0x100_0000);
    assert(le_bytes(n, 4) =~= seq![
        (n % 256) as u8,
        (n1 % 256) as u8,
        (n2 % 256) as u8,
        (n3 % 256) as u8,
    ]);
}

proof fn lemma_quad(a: u8, b: u8, c: u8, d: u8)
    ensures
        seq![34u8] + quad(a, b, c, d) + seq![34u8] == seq![34u8] + decimal_bytes(a as nat) + seq![
            46u8,
        ] + decimal_bytes(b as nat) + seq![46u8] + decimal_bytes(c as nat) + seq![46u8]
            + decimal_bytes(d as nat) + seq![34u8],
{
    assert(seq![34u8] + quad(a, b, c, d) + seq![34u8] =~= seq![34u8] + decimal_bytes(a as nat)
        + seq![46u8] + decimal_bytes(b as nat) + seq![46u8] + decimal_bytes(c as nat) + seq![46u8]
        + decimal_bytes(d as nat) + seq![34u8]);
}

} // verus!
