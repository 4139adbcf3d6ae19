//! UUIDs and IP addresses as the row encoder reads them.

use vstd::prelude::*;
use vstd::string::*;

use crate::dynamic::answers::{entry_of, Answers, AnswersView, Question, QuestionView};
use crate::dynamic::error::{enc_err, refusal, DynamicError, DynamicErrorView};
use crate::dynamic::value::{plain_text, value_to_str, Json, Value};
use crate::native::io::{le_bytes, push_all, push_le};
use crate::text::{all_digits, chars_of, find_from, next_of, number, parse_unsigned};

verus! {

// ---------------------------------------------------------------------------
// UUID
// ---------------------------------------------------------------------------

/// The value of a hexadecimal digit.
pub open spec fn hex_value(c: char) -> Option<nat> {
    if '0' <= c <= '9' {
        Some((c as nat - '0' as nat) as nat)
    } else if 'a' <= c <= 'f' {
        Some((c as nat - 'a' as nat + 10) as nat)
    } else if 'A' <= c <= 'F' {
        Some((c as nat - 'A' as nat + 10) as nat)
    } else {
        None
    }
}

/// The values of the hexadecimal digits of `s`; all else is passed over.
pub open spec fn hex_digits(s: Seq<char>) -> Seq<nat>
    decreases s.len(),
{
    if s.len() == 0 {
        seq![]
    } else {
        match hex_value(s.last()) {
            Some(d) => hex_digits(s.drop_last()).push(d),
            None => hex_digits(s.drop_last()),
        }
    }
}

/// The number that digits spell in base sixteen.
pub open spec fn hex_number(ds: Seq<nat>) -> nat
    decreases ds.len(),
{
    if ds.len() == 0 {
        0
    } else {
        16 * hex_number(ds.drop_last()) + ds.last()
    }
}

/// The wire form of a UUID: two little-endian `u64`, high word first.
pub open spec fn uuid_bytes(v: Json, col: Seq<char>) -> Result<Seq<u8>, DynamicErrorView> {
    let ds = hex_digits(plain_text(v));
    if ds.len() == 32 {
        Ok(le_bytes(hex_number(ds.take(16)), 8) + le_bytes(hex_number(ds.skip(16)), 8))
    } else {
        Err(refusal(col, "invalid UUID length"@))
    }
}

pub proof fn lemma_hex_digits_join(a: Seq<char>, b: Seq<char>)
    ensures
        hex_digits(a + b) == hex_digits(a) + hex_digits(b),
    decreases b.len(),
{
    if b.len() > 0 {
        lemma_hex_digits_join(a, b.drop_last());
        assert((a + b).drop_last() =~= a + b.drop_last());
        assert(hex_digits(a + b) =~= hex_digits(a) + hex_digits(b));
    } else {
        assert(a + b =~= a);
        assert(hex_digits(a + b) =~= hex_digits(a) + hex_digits(b));
    }
}

/// A UUID is the same with and without hyphens: a character that is no
/// hexadecimal digit may stand anywhere in its text.
pub proof fn law_uuid_ignores_punctuation(a: Seq<char>, c: char, b: Seq<char>, col: Seq<char>)
    requires
        hex_value(c) is None,
    ensures
        uuid_bytes(Json::String(a + seq![c] + b), col) == uuid_bytes(Json::String(a + b), col),
{
    lemma_hex_digits_join(a + seq![c], b);
    lemma_hex_digits_join(a, seq![c]);
    lemma_hex_digits_join(a, b);
    let one = seq![c];
    assert(one.last() == c);
    assert(one.drop_last() =~= seq![]);
    assert(hex_digits(one) == hex_digits(one.drop_last()));
    assert(hex_digits(a + seq![c] + b) =~= hex_digits(a + b));
}

fn hex_digit(c: char) -> (out: Option<u8>)
    ensures
        match out {
            Some(d) => hex_value(c) == Some(d as nat) && d < 16,
            None => hex_value(c) is None,
        },
{
    if '0' <= c && c <= '9' {
        Some(c as u8 - 48)
    } else if 'a' <= c && c <= 'f' {
        Some(c as u8 - 87)
    } else if 'A' <= c && c <= 'F' {
        Some(c as u8 - 55)
    } else {
        None
    }
}

/// Digits as numbers.
pub open spec fn nats(v: Seq<u8>) -> Seq<nat> {
    v.map_values(|d: u8| d as nat)
}

/// Accept hyphen-less hex or any punctuation by keeping only hex digits.
fn keep_hex(s: &[char]) -> (out: Vec<u8>)
    ensures
        nats(out@) == hex_digits(s@),
        forall|i: int| 0 <= i < out@.len() ==> #[trigger] out@[i] < 16,
{
    let mut out: Vec<u8> = Vec::new();
    let mut i: usize = 0;
    assert(nats(out@) =~= hex_digits(s@.take(0)));
    while i < s.len()
        invariant
            i <= s.len(),
            nats(out@) == hex_digits(s@.take(i as int)),
            forall|i: int| 0 <= i < out@.len() ==> #[trigger] out@[i] < 16,
        decreases s.len() - i,
    {
        proof {
            assert(s@.take(i + 1).drop_last() =~= s@.take(i as int));
            assert(s@.take(i + 1).last() == s@[i as int]);
        }
        if let Some(d) = hex_digit(s[i]) {
            proof {
                assert(nats(out@.push(d)) =~= nats(out@).push(d as nat));
            }
            out.push(d);
        }
        i += 1;
    }
    assert(s@.take(i as int) =~= s@);
    out
}

/// The number that the sixteen digits from `from` on spell.
fn hex_word(ds: &Vec<u8>, from: usize) -> (n: u64)
    requires
        from <= 16,
        from + 16 <= ds@.len(),
        forall|i: int| 0 <= i < ds@.len() ==> #[trigger] ds@[i] < 16,
    ensures
        n == hex_number(nats(ds@).subrange(from as int, from + 16)),
{
    let ghost word = nats(ds@).subrange(from as int, from + 16);
    let mut n: u64 = 0;
    let mut i: usize = 0;
    let mut bound: u128 = 1;
    while i < 16
        invariant
            i <= 16,
            from <= 16,
            from + 16 <= ds@.len(),
            forall|i: int| 0 <= i < ds@.len() ==> #[trigger] ds@[i] < 16,
            word == nats(ds@).subrange(from as int, from + 16),
            n == hex_number(word.take(i as int)),
            n < bound,
            bound == pow16(i as nat),
        decreases 16 - i,
    {
        let d: u8 = ds[from + i];
        proof {
            assert(word.take(i + 1).drop_last() =~= word.take(i as int));
            assert(word.take(i + 1).last() == d as nat);
            assert(16 * bound <= 0x1_0000_0000_0000_0000) by {
                lemma_pow16((i + 1) as nat);
            }
        }
        n = n * 16 + d as u64;
        bound = bound * 16;
        i += 1;
    }
    assert(word.take(16) =~= word);
    n
}

/// Sixteen to the power `n`.
spec fn pow16(n: nat) -> nat
    decreases n,
{
    if n == 0 {
        1
    } else {
        16 * pow16((n - 1) as nat)
    }
}

proof fn lemma_pow16(n: nat)
    requires
        n <= 16,
    ensures
        1 <= pow16(n) <= 0x1_0000_0000_0000_0000,
{
    reveal_with_fuel(pow16, 17);
}

/// Append a UUID.
pub(crate) fn encode_uuid(value: &Value, col: &str, buf: &mut Vec<u8>) -> (r: Result<
    (),
    DynamicError,
>)
    ensures
        match r {
            Ok(_) => uuid_bytes(value@, col@) matches Ok(b) && final(buf)@ == old(buf)@ + b,
            Err(e) => uuid_bytes(value@, col@) == Err::<Seq<u8>, DynamicErrorView>(e@),
        },
{
    let text = value_to_str(value);
    let chars = chars_of(text.as_str());
    let ds = keep_hex(chars.as_slice());
    if ds.len() != 32 {
        return Err(enc_err(col, "invalid UUID length"));
    }
    let high: u64 = hex_word(&ds, 0);
    let low: u64 = hex_word(&ds, 16);
    push_le(buf, high as u128, 8);
    push_le(buf, low as u128, 8);
    proof {
        let all = hex_digits(text@);
        assert(nats(ds@).subrange(0, 16) =~= all.take(16));
        assert(nats(ds@).subrange(16, 32) =~= all.skip(16));
        assert(buf@ =~= old(buf)@ + uuid_bytes(value@, col@)->Ok_0);
    }
    Ok(())
}

// ---------------------------------------------------------------------------
// IP addresses
// ---------------------------------------------------------------------------

/// The octet that a part of a dotted quad spells: up to three digits without
/// leading zeros.
pub open spec fn octet_of(s: Seq<char>) -> Option<nat> {
    if 1 <= s.len() <= 3 && all_digits(s) && (s.len() == 1 || s[0] != '0') && number(s) <= 255 {
        Some(number(s))
    } else {
        None
    }
}

/// The octets that a dotted quad spells.
pub open spec fn quad_of(s: Seq<char>) -> Option<(nat, nat, nat, nat)> {
    let i = next_of(s, '.', 0);
    let j = next_of(s, '.', i + 1);
    let k = next_of(s, '.', j + 1);
    if k >= s.len() {
        None
    } else {
        match (
            octet_of(s.subrange(0, i as int)),
            octet_of(s.subrange(i as int + 1, j as int)),
            octet_of(s.subrange(j as int + 1, k as int)),
            octet_of(s.subrange(k as int + 1, s.len() as int)),
        ) {
            (Some(a), Some(b), Some(c), Some(d)) => Some((a, b, c, d)),
            _ => None,
        }
    }
}

/// The wire form of an IPv4 address: a little-endian `u32`. An integer of 32
/// bits is the address itself.
pub open spec fn ipv4_bytes(v: Json, col: Seq<char>) -> Result<Seq<u8>, DynamicErrorView> {
    match v {
        Json::Number(n) if n.unsigned is Some => if n.unsigned->Some_0 <= u32::MAX {
            Ok(le_bytes(n.unsigned->Some_0 as nat, 4))
        } else {
            Err(refusal(col, "invalid IPv4"@))
        },
        _ => match quad_of(plain_text(v)) {
            Some((a, b, c, d)) => Ok(seq![d as u8, c as u8, b as u8, a as u8]),
            None => Err(refusal(col, "invalid IPv4"@)),
        },
    }
}

/// The wire form of an IPv6 address: sixteen octets in network byte order.
pub open spec fn ipv6_bytes(v: Json, col: Seq<char>, a: AnswersView) -> Result<
    Seq<u8>,
    DynamicErrorView,
> {
    match entry_of(a.addresses, plain_text(v)) {
        Some(Some(octets)) => Ok(octets),
        Some(None) => Err(refusal(col, "invalid IPv6"@)),
        None => Err(DynamicErrorView::AnswerNeeded(QuestionView::Ipv6(plain_text(v)))),
    }
}

fn read_octet(s: &[char], from: usize, to: usize) -> (out: Option<u8>)
    requires
        from <= to <= s@.len(),
    ensures
        match out {
            Some(n) => octet_of(s@.subrange(from as int, to as int)) == Some(n as nat),
            None => octet_of(s@.subrange(from as int, to as int)) is None,
        },
{
    let part = vstd::slice::slice_subrange(s, from, to);
    if part.len() == 0 || part.len() > 3 {
        return None;
    }
    if part[0] == '+' {
        proof {
            assert(!('0' <= part@[0] <= '9'));
        }
        return None;
    }
    if part.len() > 1 && part[0] == '0' {
        return None;
    }
    match parse_unsigned(part, 255) {
        Some(n) => Some(n as u8),
        None => None,
    }
}

fn read_quad(s: &[char]) -> (out: Option<(u8, u8, u8, u8)>)
    ensures
        match out {
            Some((a, b, c, d)) => quad_of(s@) == Some((a as nat, b as nat, c as nat, d as nat)),
            None => quad_of(s@) is None,
        },
{
    let i: usize = find_from(s, '.', 0);
    if i >= s.len() {
        proof {
            lemma_next_behind(s@, '.', i + 1);
            lemma_next_behind(s@, '.', i + 2);
        }
        return None;
    }
    let j: usize = find_from(s, '.', i + 1);
    if j >= s.len() {
        proof {
            lemma_next_behind(s@, '.', j + 1);
        }
        return None;
    }
    let k: usize = find_from(s, '.', j + 1);
    if k >= s.len() {
        return None;
    }
    let a: u8 = match read_octet(s, 0, i) {
        Some(n) => n,
        None => return None,
    };
    let b: u8 = match read_octet(s, i + 1, j) {
        Some(n) => n,
        None => return None,
    };
    let c: u8 = match read_octet(s, j + 1, k) {
        Some(n) => n,
        None => return None,
    };
    let d: u8 = match read_octet(s, k + 1, s.len()) {
        Some(n) => n,
        None => return None,
    };
    Some((a, b, c, d))
}

proof fn lemma_next_behind(s: Seq<char>, c: char, from: int)
    requires
        from >= s.len(),
    ensures
        next_of(s, c, from as nat) == from,
{
}

/// Append an IPv4 address.
pub(crate) fn encode_ipv4(value: &Value, col: &str, buf: &mut Vec<u8>) -> (r: Result<
    (),
    DynamicError,
>)
    ensures
        match r {
            Ok(_) => ipv4_bytes(value@, col@) matches Ok(b) && final(buf)@ == old(buf)@ + b,
            Err(e) => ipv4_bytes(value@, col@) == Err::<Seq<u8>, DynamicErrorView>(e@),
        },
{
    // Integer input is interpreted as the host-order address.
    if let Value::Number(n) = value {
        if let Some(u) = n.unsigned {
            if u > u32::MAX as u64 {
                return Err(enc_err(col, "invalid IPv4"));
            }
            push_le(buf, u as u128, 4);
            return Ok(());
        }
    }
    let text = value_to_str(value);
    let chars = chars_of(text.as_str());
    match read_quad(chars.as_slice()) {
        Some((a, b, c, d)) => {
            buf.push(d);
            buf.push(c);
            buf.push(b);
            buf.push(a);
            assert(buf@ =~= old(buf)@ + seq![d, c, b, a]);
            Ok(())
        },
        None => Err(enc_err(col, "invalid IPv4")),
    }
}

/// Append an IPv6 address.
pub(crate) fn encode_ipv6(value: &Value, col: &str, answers: &Answers, buf: &mut Vec<u8>) -> (r:
    Result<(), DynamicError>)
    ensures
        match r {
            Ok(_) => ipv6_bytes(value@, col@, answers@) matches Ok(b) && final(buf)@ == old(buf)@
                + b,
            Err(e) => ipv6_bytes(value@, col@, answers@) == Err::<Seq<u8>, DynamicErrorView>(e@),
        },
{
    let text = value_to_str(value);
    match answers.ipv6(text.as_str()) {
        Some(Some(octets)) => {
            push_all(buf, octets.as_slice());
            Ok(())
        },
        Some(None) => Err(enc_err(col, "invalid IPv6")),
        None => Err(DynamicError::AnswerNeeded(Question::Ipv6(text))),
    }
}

} // verus!
