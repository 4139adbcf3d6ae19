//! JSON strings made of raw bytes.
//!
//! Bytes that are UTF-8 stand as they are, but for the characters that JSON
//! escapes. A byte that begins no UTF-8 character is escaped by its number, so
//! that the string is UTF-8 whatever the bytes are.

use vstd::prelude::*;
use vstd::utf8::{
    encode_scalar, length_of_first_scalar, pop_first_scalar, take_first_scalar, valid_first_scalar,
    valid_utf8, valid_utf8_concat,
};

use crate::native::address::{hex_digit, hex_digit_of};
use crate::native::io::push_all;

verus! {

/// The escape `\u00XX` of the character numbered `b`.
pub open spec fn numbered(b: u8) -> Seq<u8> {
    seq![92u8, 117u8, 48u8, 48u8, hex_digit((b / 16) as nat), hex_digit((b % 16) as nat)]
}

/// How an ASCII character stands inside a JSON string.
pub open spec fn escaped(b: u8) -> Seq<u8> {
    if b == 34 {
        seq![92u8, 34u8]
    } else if b == 92 {
        seq![92u8, 92u8]
    } else if b == 10 {
        seq![92u8, 110u8]
    } else if b == 13 {
        seq![92u8, 114u8]
    } else if b == 9 {
        seq![92u8, 116u8]
    } else if b <= 0x1f {
        numbered(b)
    } else {
        seq![b]
    }
}

/// How many of the bytes `s` are taken together: the first character, or one
/// byte that begins none.
pub open spec fn piece_len(s: Seq<u8>) -> int {
    if valid_first_scalar(s) {
        length_of_first_scalar(s)
    } else {
        1
    }
}

/// How the first piece of `s` stands inside a JSON string.
pub open spec fn first_escaped(s: Seq<u8>) -> Seq<u8> {
    if !valid_first_scalar(s) {
        numbered(s[0])
    } else if s[0] < 0x80 {
        escaped(s[0])
    } else {
        take_first_scalar(s)
    }
}

/// The escaped pieces of `s`, one behind the other.
pub open spec fn escaped_all(s: Seq<u8>) -> Seq<u8>
    decreases s.len(),
{
    if s.len() == 0 {
        seq![]
    } else {
        first_escaped(s) + escaped_all(s.skip(piece_len(s)))
    }
}

/// The bytes as a JSON string.
pub open spec fn quoted_bytes(s: Seq<u8>) -> Seq<u8> {
    seq![34u8] + escaped_all(s) + seq![34u8]
}

fn push_numbered(out: &mut Vec<u8>, b: u8)
    ensures
        final(out)@ == old(out)@ + numbered(b),
{
    out.push(92);
    out.push(117);
    out.push(48);
    out.push(48);
    out.push(hex_digit_of(b / 16));
    out.push(hex_digit_of(b % 16));
    assert(out@ =~= old(out)@ + numbered(b));
}

fn push_escaped(out: &mut Vec<u8>, b: u8)
    ensures
        final(out)@ == old(out)@ + escaped(b),
{
    if b == 34 {
        out.push(92);
        out.push(34);
    } else if b == 92 {
        out.push(92);
        out.push(92);
    } else if b == 10 {
        out.push(92);
        out.push(110);
    } else if b == 13 {
        out.push(92);
        out.push(114);
    } else if b == 9 {
        out.push(92);
        out.push(116);
    } else if b <= 0x1f {
        // Control character -- escape as \uXXXX
        push_numbered(out, b);
    } else {
        out.push(b);
    }
    assert(out@ =~= old(out)@ + escaped(b));
}

fn continues(b: u8) -> (yes: bool)
    ensures
        yes == vstd::utf8::is_continuation_byte(b),
{
    0x80 <= b && b <= 0xbf
}

/// How many bytes the character at `i` has; `None` where none begins there.
fn scalar_len(s: &[u8], i: usize) -> (out: Option<usize>)
    requires
        i < s@.len(),
    ensures
        match out {
            Some(n) => valid_first_scalar(s@.skip(i as int)) && n == length_of_first_scalar(
                s@.skip(i as int),
            ) && 1 <= n <= s@.len() - i && (n == 1 <==> s@[i as int] < 0x80),
            None => !valid_first_scalar(s@.skip(i as int)),
        },
{
    let ghost rest = s@.skip(i as int);
    let left: usize = s.len() - i;
    let a: u8 = s[i];
    assert(rest[0] == a);
    if a <= 0x7f {
        assert((a & 0x7f) as u32 <= 0x7f) by (bit_vector);
        return Some(1);
    }
    if left < 2 || !continues(s[i + 1]) {
        assert(left >= 2 ==> rest[1] == s@[i + 1]);
        return None;
    }
    let b: u8 = s[i + 1];
    assert(rest[1] == b);
    if 0xc0 <= a && a <= 0xdf {
        let point: u32 = (((a & 0x1f) as u32) << 6) | ((b & 0x3f) as u32);
        assert(point == vstd::utf8::decode_first_codepoint(rest));
        assert(point <= 0x7ff) by (bit_vector)
            requires
                point == (((a & 0x1f) as u32) << 6) | ((b & 0x3f) as u32),
        ;
        return if point >= 0x80 {
            Some(2)
        } else {
            None
        };
    }
    if left < 3 || !continues(s[i + 2]) {
        assert(left >= 3 ==> rest[2] == s@[i + 2]);
        return None;
    }
    let c: u8 = s[i + 2];
    assert(rest[2] == c);
    if 0xe0 <= a && a <= 0xef {
        let point: u32 = (((a & 0x0f) as u32) << 12) | (((b & 0x3f) as u32) << 6) | ((c
            & 0x3f) as u32);
        assert(point == vstd::utf8::decode_first_codepoint(rest));
        return if point >= 0x800 && !(0xd800 <= point && point <= 0xdfff) {
            Some(3)
        } else {
            None
        };
    }
    if left < 4 || !continues(s[i + 3]) {
        assert(left >= 4 ==> rest[3] == s@[i + 3]);
        return None;
    }
    let d: u8 = s[i + 3];
    assert(rest[3] == d);
    if 0xf0 <= a && a <= 0xf7 {
        let point: u32 = (((a & 0x07) as u32) << 18) | (((b & 0x3f) as u32) << 12) | (((c
            & 0x3f) as u32) << 6) | ((d & 0x3f) as u32);
        assert(point == vstd::utf8::decode_first_codepoint(rest));
        return if 0x1_0000 <= point && point <= 0x10_ffff {
            Some(4)
        } else {
            None
        };
    }
    None
}

/// JSON-quote raw bytes as a UTF-8 string; bytes that are not UTF-8 are
/// escaped.
pub fn push_quoted(out: &mut Vec<u8>, s: &[u8])
    ensures
        final(out)@ == old(out)@ + quoted_bytes(s@),
        valid_utf8(quoted_bytes(s@)),
{
    out.push(34);
    let mut i: usize = 0;
    let ghost mut done: Seq<u8> = seq![];
    assert(s@.skip(0) =~= s@);
    assert(out@ =~= old(out)@ + (seq![34u8] + done));
    assert(done + escaped_all(s@) =~= escaped_all(s@));
    while i < s.len()
        invariant
            i <= s.len(),
            out@ == old(out)@ + (seq![34u8] + done),
            escaped_all(s@) == done + escaped_all(s@.skip(i as int)),
        decreases s.len() - i,
    {
        let ghost rest = s@.skip(i as int);
        let ghost before = out@;
        let n: usize = match scalar_len(s, i) {
            Some(n) => {
                if n == 1 {
                    push_escaped(out, s[i]);
                } else {
                    assert(s@.subrange(i as int, i + n) =~= take_first_scalar(rest));
                    push_all(out, vstd::slice::slice_subrange(s, i, i + n));
                }
                n
            },
            None => {
                push_numbered(out, s[i]);
                1
            },
        };
        proof {
            let piece = first_escaped(rest);
            assert(out@ == before + piece);
            assert(rest.skip(n as int) =~= s@.skip(i + n));
            assert(done + (piece + escaped_all(rest.skip(n as int))) =~= (done + piece)
                + escaped_all(rest.skip(n as int)));
            done = done + piece;
            assert(out@ =~= old(out)@ + (seq![34u8] + done));
        }
        i = i + n;
    }
    out.push(34);
    proof {
        assert(s@.skip(i as int) =~= seq![]);
        assert(done =~= escaped_all(s@));
        assert(out@ =~= old(out)@ + quoted_bytes(s@));
        law_quoted_is_utf8(s@);
    }
}

// ---------------------------------------------------------------------------
// Laws
// ---------------------------------------------------------------------------

/// ASCII is UTF-8.
proof fn lemma_ascii_valid(s: Seq<u8>)
    requires
        forall|i: int| 0 <= i < s.len() ==> #[trigger] s[i] < 0x80,
    ensures
        valid_utf8(s),
    decreases s.len(),
{
    if s.len() > 0 {
        let a = s[0];
        assert((a & 0x7f) as u32 <= 0x7f) by (bit_vector);
        lemma_ascii_valid(pop_first_scalar(s));
    }
}

/// The first piece is UTF-8 once it is escaped.
proof fn lemma_piece_valid(s: Seq<u8>)
    requires
        s.len() > 0,
    ensures
        valid_utf8(first_escaped(s)),
        1 <= piece_len(s) <= s.len(),
{
    let p = first_escaped(s);
    if valid_first_scalar(s) && s[0] >= 0x80 {
        assert(p[0] == s[0]);
        assert(p[1] == s[1]);
        assert(p.len() == length_of_first_scalar(s));
        assert(p.len() >= 3 ==> p[2] == s[2]);
        assert(p.len() >= 4 ==> p[3] == s[3]);
        assert(valid_first_scalar(p));
        assert(pop_first_scalar(p).len() == 0);
        assert(valid_utf8(pop_first_scalar(p)));
    } else {
        lemma_ascii_valid(p);
    }
}

proof fn lemma_escaped_valid(s: Seq<u8>)
    ensures
        valid_utf8(escaped_all(s)),
    decreases s.len(),
{
    if s.len() > 0 {
        lemma_piece_valid(s);
        let rest = s.skip(piece_len(s));
        lemma_escaped_valid(rest);
        valid_utf8_concat(first_escaped(s), escaped_all(rest));
    }
}

/// A JSON string is UTF-8, whatever bytes it was made of.
pub proof fn law_quoted_is_utf8(s: Seq<u8>)
    ensures
        valid_utf8(quoted_bytes(s)),
{
    lemma_escaped_valid(s);
    lemma_ascii_valid(seq![34u8]);
    valid_utf8_concat(seq![34u8], escaped_all(s));
    valid_utf8_concat(seq![34u8] + escaped_all(s), seq![34u8]);
}

/// The character that a one-letter escape stands for.
pub open spec fn short_escape(b: u8) -> Option<u8> {
    if b == 34 || b == 92 || b == 47 {
        Some(b)
    } else if b == 98 {
        Some(8u8)
    } else if b == 102 {
        Some(12u8)
    } else if b == 110 {
        Some(10u8)
    } else if b == 114 {
        Some(13u8)
    } else if b == 116 {
        Some(9u8)
    } else {
        None
    }
}

/// The value of a hex digit.
pub open spec fn hex_value(b: u8) -> Option<nat> {
    if 48 <= b <= 57 {
        Some((b - 48) as nat)
    } else if 97 <= b <= 102 {
        Some((b - 87) as nat)
    } else if 65 <= b <= 70 {
        Some((b - 55) as nat)
    } else {
        None
    }
}

/// The number that four hex digits spell.
pub open spec fn hex_number(s: Seq<u8>) -> Option<nat> {
    match (hex_value(s[0]), hex_value(s[1]), hex_value(s[2]), hex_value(s[3])) {
        (Some(a), Some(b), Some(c), Some(d)) => Some(0x1000 * a + 0x100 * b + 0x10 * c + d),
        _ => None,
    }
}

/// Whether `n` is one half of a pair that stands for one character.
pub open spec fn is_surrogate(n: nat) -> bool {
    0xd800 <= n <= 0xdfff
}

/// What the inside of a JSON string reads as. Surrogate pairs, which quoting
/// never writes, are not read.
pub open spec fn unescaped(s: Seq<u8>) -> Option<Seq<u8>>
    decreases s.len(),
{
    if s.len() == 0 {
        Some(seq![])
    } else {
        let (read, taken): (Option<Seq<u8>>, int) = if s[0] == 92 {
            if s.len() >= 6 && s[1] == 117 {
                match hex_number(s.subrange(2, 6)) {
                    Some(n) if !is_surrogate(n) => (Some(encode_scalar(n as u32)), 6),
                    _ => (None, 6),
                }
            } else if s.len() >= 2 {
                match short_escape(s[1]) {
                    Some(b) => (Some(seq![b]), 2),
                    None => (None, 2),
                }
            } else {
                (None, 1)
            }
        } else if s[0] == 34 || s[0] <= 0x1f {
            (None, 1)
        } else {
            (Some(seq![s[0]]), 1)
        };
        match (read, unescaped(s.skip(taken))) {
            (Some(b), Some(rest)) => Some(b + rest),
            _ => None,
        }
    }
}

/// What a JSON string reads as.
pub open spec fn unquoted(s: Seq<u8>) -> Option<Seq<u8>> {
    if s.len() >= 2 && s[0] == 34 && s.last() == 34 {
        unescaped(s.subrange(1, s.len() - 1))
    } else {
        None
    }
}

/// The bytes with every one that begins no character replaced by the character
/// of its number.
pub open spec fn repaired(s: Seq<u8>) -> Seq<u8>
    decreases s.len(),
{
    if s.len() == 0 {
        seq![]
    } else if valid_first_scalar(s) {
        take_first_scalar(s) + repaired(s.skip(piece_len(s)))
    } else {
        encode_scalar(s[0] as u32) + repaired(s.skip(1))
    }
}

/// What is UTF-8 needs no repair.
proof fn lemma_repaired_same(s: Seq<u8>)
    requires
        valid_utf8(s),
    ensures
        repaired(s) == s,
    decreases s.len(),
{
    if s.len() > 0 {
        assert(s.skip(piece_len(s)) =~= pop_first_scalar(s));
        lemma_repaired_same(pop_first_scalar(s));
        assert(take_first_scalar(s) + pop_first_scalar(s) =~= s);
    } else {
        assert(repaired(s) =~= s);
    }
}

/// Bytes from 0x80 on are read as they stand.
proof fn lemma_high_bytes(p: Seq<u8>, rest: Seq<u8>, x: Seq<u8>)
    requires
        forall|i: int| 0 <= i < p.len() ==> #[trigger] p[i] >= 0x80,
        unescaped(rest) == Some(x),
    ensures
        unescaped(p + rest) == Some(p + x),
    decreases p.len(),
{
    if p.len() == 0 {
        assert(p + rest =~= rest);
        assert(p + x =~= x);
    } else {
        let tail = p.skip(1);
        lemma_high_bytes(tail, rest, x);
        assert((p + rest).skip(1) =~= tail + rest);
        assert((p + rest)[0] == p[0]);
        assert(seq![p[0]] + (tail + x) =~= p + x);
    }
}

/// An escape by number is read as the character of the number.
proof fn lemma_numbered(b: u8, rest: Seq<u8>, x: Seq<u8>)
    requires
        unescaped(rest) == Some(x),
    ensures
        unescaped(numbered(b) + rest) == Some(encode_scalar(b as u32) + x),
{
    let s = numbered(b) + rest;
    let digits = s.subrange(2, 6);
    assert(digits =~= numbered(b).subrange(2, 6));
    assert(hex_value(hex_digit((b / 16) as nat)) == Some((b / 16) as nat));
    assert(hex_value(hex_digit((b % 16) as nat)) == Some((b % 16) as nat));
    assert(0x10 * (b / 16) + b % 16 == b);
    assert(hex_number(digits) == Some(b as nat));
    assert(s.skip(6) =~= rest);
}

/// The first piece is read as it was before it was escaped.
proof fn lemma_piece_read(s: Seq<u8>, rest: Seq<u8>, x: Seq<u8>)
    requires
        s.len() > 0,
        unescaped(rest) == Some(x),
    ensures
        unescaped(first_escaped(s) + rest) == Some(
            (if valid_first_scalar(s) {
                take_first_scalar(s)
            } else {
                encode_scalar(s[0] as u32)
            }) + x,
        ),
{
    let b = s[0];
    if !valid_first_scalar(s) {
        lemma_numbered(b, rest, x);
    } else if b >= 0x80 {
        lemma_high_bytes(take_first_scalar(s), rest, x);
    } else {
        let t = escaped(b) + rest;
        assert(take_first_scalar(s) =~= seq![b]);
        if b == 34 || b == 92 || b == 10 || b == 13 || b == 9 {
            assert(t.skip(2) =~= rest);
            assert(t[0] == 92);
            assert(t[1] == escaped(b)[1]);
        } else if b <= 0x1f {
            lemma_numbered(b, rest, x);
            let n = b as u32;
            assert((n & 0x7f) as u8 == b) by (bit_vector)
                requires
                    n == b as u32,
                    b < 0x80,
            ;
            assert(encode_scalar(n) =~= seq![b]);
        } else {
            assert(t.skip(1) =~= rest);
            assert(t[0] == b);
        }
    }
}

proof fn lemma_read_back(s: Seq<u8>)
    ensures
        unescaped(escaped_all(s)) == Some(repaired(s)),
    decreases s.len(),
{
    if s.len() > 0 {
        lemma_piece_valid(s);
        let rest = s.skip(piece_len(s));
        lemma_read_back(rest);
        lemma_piece_read(s, escaped_all(rest), repaired(rest));
    }
}

/// A JSON string is read back as the bytes it was made of, where they are
/// UTF-8; a byte that begins no character is read back as the character of its
/// number.
pub proof fn law_quoted_is_read_back(s: Seq<u8>)
    ensures
        unquoted(quoted_bytes(s)) == Some(repaired(s)),
        valid_utf8(s) ==> unquoted(quoted_bytes(s)) == Some(s),
{
    let q = quoted_bytes(s);
    assert(q.subrange(1, q.len() - 1) =~= escaped_all(s));
    lemma_read_back(s);
    if valid_utf8(s) {
        lemma_repaired_same(s);
    }
}

} // verus!
