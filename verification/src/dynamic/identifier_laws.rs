//! What the decoder renders, the row encoder reads back.

use vstd::prelude::*;

use crate::dynamic::error::DynamicErrorView;
use crate::dynamic::identifiers::{
    hex_digits, hex_number, hex_value, ipv4_bytes, lemma_hex_digits_join, octet_of, quad_of,
    uuid_bytes,
};
use crate::dynamic::value::Json;
use crate::native::address::{hex_digit, quad};
use crate::native::io::{law_le_bytes_back, le_nat};
use crate::native::json::{reversed_hex, uuid_text};
use crate::text::{decimal_bytes, next_of, number};

verus! {

/// ASCII bytes as text.
pub open spec fn ascii(b: Seq<u8>) -> Seq<char> {
    b.map_values(|c: u8| c as char)
}

// ---------------------------------------------------------------------------
// UUID
// ---------------------------------------------------------------------------

proof fn lemma_hex_digit_reads(d: nat)
    requires
        d < 16,
    ensures
        hex_value(hex_digit(d) as char) == Some(d),
{
}

proof fn lemma_hex_number_join(a: Seq<nat>, x: nat, y: nat)
    ensures
        hex_number(a + seq![x, y]) == 256 * hex_number(a) + 16 * x + y,
{
    let s = a + seq![x, y];
    assert(s.drop_last() =~= a + seq![x]);
    assert(s.drop_last().drop_last() =~= a);
    assert(s.last() == y);
    let t = s.drop_last();
    assert(t.last() == x);
    assert(hex_number(t) == 16 * hex_number(t.drop_last()) + x);
    assert(hex_number(s) == 16 * hex_number(t) + y);
}

/// Two hexadecimal digits are read as they stand.
proof fn lemma_pair_reads(x: nat, y: nat)
    requires
        x < 16,
        y < 16,
    ensures
        hex_digits(seq![hex_digit(x) as char, hex_digit(y) as char]) == seq![x, y],
{
    lemma_hex_digit_reads(x);
    lemma_hex_digit_reads(y);
    let s = seq![hex_digit(x) as char, hex_digit(y) as char];
    let t = s.drop_last();
    assert(s.last() == hex_digit(y) as char);
    assert(t.last() == hex_digit(x) as char);
    assert(t.drop_last() =~= seq![]);
    assert(hex_digits(t.drop_last()) =~= seq![]);
    assert(hex_digits(t) =~= seq![x]);
    assert(hex_digits(s) =~= seq![x, y]);
}

proof fn lemma_reversed_hex_reads(b: Seq<u8>)
    ensures
        reversed_hex(b).len() == 2 * b.len(),
        hex_digits(ascii(reversed_hex(b))).len() == 2 * b.len(),
        hex_number(hex_digits(ascii(reversed_hex(b)))) == le_nat(b),
    decreases b.len(),
{
    if b.len() > 0 {
        let rest = b.drop_first();
        let x = (b[0] / 16) as nat;
        let y = (b[0] % 16) as nat;
        lemma_reversed_hex_reads(rest);
        let pair = seq![hex_digit(x) as char, hex_digit(y) as char];
        assert(ascii(reversed_hex(b)) =~= ascii(reversed_hex(rest)) + pair);
        lemma_hex_digits_join(ascii(reversed_hex(rest)), pair);
        lemma_pair_reads(x, y);
        lemma_hex_number_join(hex_digits(ascii(reversed_hex(rest))), x, y);
    } else {
        assert(ascii(reversed_hex(b)) =~= seq![]);
        assert(hex_digits(ascii(reversed_hex(b))) =~= seq![]);
    }
}

proof fn lemma_hyphen_passed(a: Seq<char>, b: Seq<char>)
    ensures
        hex_digits(a + seq!['-'] + b) == hex_digits(a) + hex_digits(b),
{
    lemma_hex_digits_join(a + seq!['-'], b);
    lemma_hex_digits_join(a, seq!['-']);
    let one = seq!['-'];
    assert(one.last() == '-');
    assert(one.drop_last() =~= seq![]);
    assert(hex_digits(one) == hex_digits(one.drop_last()));
    assert(hex_digits(a) + hex_digits(one) =~= hex_digits(a));
}

/// A UUID that was rendered is encoded as the bytes it was rendered from.
pub proof fn law_uuid_round_trip(b: Seq<u8>, col: Seq<char>)
    requires
        b.len() == 16,
    ensures
        uuid_bytes(Json::String(ascii(uuid_text(b))), col) == Ok::<Seq<u8>, DynamicErrorView>(b),
{
    let high = b.subrange(0, 8);
    let low = b.subrange(8, 16);
    let h = reversed_hex(high);
    let l = reversed_hex(low);
    let digits = h + l;
    lemma_reversed_hex_reads(high);
    lemma_reversed_hex_reads(low);
    let s1 = ascii(digits.subrange(0, 8));
    let s2 = ascii(digits.subrange(8, 12));
    let s3 = ascii(digits.subrange(12, 16));
    let s4 = ascii(digits.subrange(16, 20));
    let s5 = ascii(digits.subrange(20, 32));
    let one = seq!['-'];
    assert(ascii(uuid_text(b)) =~= s1 + one + s2 + one + s3 + one + s4 + one + s5);
    lemma_hyphen_passed(s1 + one + s2 + one + s3 + one + s4, s5);
    lemma_hyphen_passed(s1 + one + s2 + one + s3, s4);
    lemma_hyphen_passed(s1 + one + s2, s3);
    lemma_hyphen_passed(s1, s2);
    lemma_hex_digits_join(s1 + s2, s3);
    lemma_hex_digits_join(s1, s2);
    lemma_hex_digits_join(s4, s5);
    assert(s1 + s2 + s3 =~= ascii(h));
    assert(s4 + s5 =~= ascii(l));
    let dh = hex_digits(ascii(h));
    let dl = hex_digits(ascii(l));
    let all = hex_digits(ascii(uuid_text(b)));
    assert(all =~= dh + dl);
    assert(all.take(16) =~= dh);
    assert(all.skip(16) =~= dl);
    law_le_bytes_back(high);
    law_le_bytes_back(low);
    assert(high + low =~= b);
}

// ---------------------------------------------------------------------------
// IPv4
// ---------------------------------------------------------------------------

proof fn lemma_octet_reads(n: u8)
    ensures
        octet_of(ascii(decimal_bytes(n as nat))) == Some(n as nat),
        1 <= decimal_bytes(n as nat).len() <= 3,
        forall|i: int|
            0 <= i < decimal_bytes(n as nat).len() ==> 48 <= #[trigger] decimal_bytes(n as nat)[i]
                <= 57,
{
    reveal_with_fuel(decimal_bytes, 3);
    reveal_with_fuel(number, 4);
    let d = decimal_bytes(n as nat);
    let s = ascii(d);
    if n >= 100 {
        let h = (n as nat / 100) as nat;
        let t = (n as nat / 10 % 10) as nat;
        let u = (n as nat % 10) as nat;
        assert(d =~= seq![(48 + h) as u8, (48 + t) as u8, (48 + u) as u8]);
        assert(s.drop_last().drop_last().drop_last() =~= seq![]);
    } else if n >= 10 {
        let t = (n as nat / 10) as nat;
        let u = (n as nat % 10) as nat;
        assert(d =~= seq![(48 + t) as u8, (48 + u) as u8]);
        assert(s.drop_last().drop_last() =~= seq![]);
    } else {
        assert(s.drop_last() =~= seq![]);
    }
    assert forall|i: int| 0 <= i < s.len() implies '0' <= #[trigger] s[i] <= '9' by {}
}

proof fn lemma_dot_found(head: Seq<char>, part: Seq<char>, rest: Seq<char>)
    requires
        forall|i: int| 0 <= i < part.len() ==> #[trigger] part[i] != '.',
    ensures
        next_of(head + part + seq!['.'] + rest, '.', head.len()) == head.len() + part.len(),
    decreases part.len(),
{
    let s = head + part + seq!['.'] + rest;
    if part.len() > 0 {
        assert(s[head.len() as int] == part[0]);
        let h = head.push(part[0]);
        let p = part.skip(1);
        assert forall|i: int| 0 <= i < p.len() implies #[trigger] p[i] != '.' by {
            assert(part[i + 1] != '.');
        }
        lemma_dot_found(h, p, rest);
        assert(h + p + seq!['.'] + rest =~= s);
    } else {
        assert(s[head.len() as int] == '.');
    }
}

/// An IPv4 address that was rendered is encoded as the bytes it was rendered
/// from.
pub proof fn law_ipv4_round_trip(a: u8, b: u8, c: u8, d: u8, col: Seq<char>)
    ensures
        ipv4_bytes(Json::String(ascii(quad(a, b, c, d))), col) == Ok::<
            Seq<u8>,
            DynamicErrorView,
        >(seq![d, c, b, a]),
{
    let w = ascii(decimal_bytes(a as nat));
    let x = ascii(decimal_bytes(b as nat));
    let y = ascii(decimal_bytes(c as nat));
    let z = ascii(decimal_bytes(d as nat));
    lemma_octet_reads(a);
    lemma_octet_reads(b);
    lemma_octet_reads(c);
    lemma_octet_reads(d);
    let dot = seq!['.'];
    let s = ascii(quad(a, b, c, d));
    assert(s =~= w + dot + x + dot + y + dot + z);
    let none = Seq::<char>::empty();
    let i = w.len();
    let j = i + 1 + x.len();
    let k = j + 1 + y.len();
    lemma_dot_found(none, w, x + dot + y + dot + z);
    assert(none + w + dot + (x + dot + y + dot + z) =~= s);
    lemma_dot_found(w + dot, x, y + dot + z);
    assert(w + dot + x + dot + (y + dot + z) =~= s);
    lemma_dot_found(w + dot + x + dot, y, z);
    assert(w + dot + x + dot + y + dot + z =~= s);
    assert(s.subrange(0, i as int) =~= w);
    assert(s.subrange(i as int + 1, j as int) =~= x);
    assert(s.subrange(j as int + 1, k as int) =~= y);
    assert(s.subrange(k as int + 1, s.len() as int) =~= z);
    assert(quad_of(s) == Some((a as nat, b as nat, c as nat, d as nat)));
}

} // verus!
