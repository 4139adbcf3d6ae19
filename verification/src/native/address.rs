//! The texts of IP addresses.

use vstd::prelude::*;

use crate::native::io::push_all;
use crate::text::{decimal_bytes, push_decimal_bytes};

verus! {

/// The lower-case digit of `d` in base sixteen.
pub open spec fn hex_digit(d: nat) -> u8 {
    if d < 10 {
        (48 + d) as u8
    } else {
        (87 + d) as u8
    }
}

/// The text of `n` in base sixteen, without leading zeros.
pub open spec fn hex(n: nat) -> Seq<u8>
    decreases n,
{
    if n < 16 {
        seq![hex_digit(n)]
    } else {
        hex(n / 16).push(hex_digit(n % 16))
    }
}

/// The lower-case digit of `d` in base sixteen.
pub fn hex_digit_of(d: u8) -> (c: u8)
    requires
        d < 16,
    ensures
        c == hex_digit(d as nat),
{
    if d < 10 {
        48 + d
    } else {
        87 + d
    }
}

/// Append the text of `n` in base sixteen.
pub fn push_hex(out: &mut Vec<u8>, n: u16)
    ensures
        final(out)@ == old(out)@ + hex(n as nat),
    decreases n,
{
    if n >= 16 {
        push_hex(out, n / 16);
    }
    out.push(hex_digit_of((n % 16) as u8));
    assert(out@ =~= old(out)@ + hex(n as nat));
}

/// The dotted-quad text of an IPv4 address, most significant byte first.
pub open spec fn quad(a: u8, b: u8, c: u8, d: u8) -> Seq<u8> {
    decimal_bytes(a as nat) + seq![46u8] + decimal_bytes(b as nat) + seq![46u8] + decimal_bytes(
        c as nat,
    ) + seq![46u8] + decimal_bytes(d as nat)
}

/// Append the dotted-quad text of an IPv4 address.
pub fn push_quad(out: &mut Vec<u8>, a: u8, b: u8, c: u8, d: u8)
    ensures
        final(out)@ == old(out)@ + quad(a, b, c, d),
{
    push_decimal_bytes(out, a as u128);
    out.push(46);
    push_decimal_bytes(out, b as u128);
    out.push(46);
    push_decimal_bytes(out, c as u128);
    out.push(46);
    push_decimal_bytes(out, d as u128);
    assert(out@ =~= old(out)@ + quad(a, b, c, d));
}

/// The `i`th of the eight segments of a 16-byte network-order address.
pub open spec fn segment(a: Seq<u8>, i: int) -> nat {
    (a[2 * i] * 256 + a[2 * i + 1]) as nat
}

/// Whether the address is IPv4-mapped: `::ffff:a.b.c.d`.
pub open spec fn is_mapped(a: Seq<u8>) -> bool {
    &&& forall|i: int| 0 <= i < 5 ==> #[trigger] segment(a, i) == 0
    &&& segment(a, 5) == 0xffff
}

/// How many zero segments end right before the `n`th.
pub open spec fn zero_run(a: Seq<u8>, n: nat) -> nat
    decreases n,
{
    if n == 0 || segment(a, n - 1) != 0 {
        0
    } else {
        1 + zero_run(a, (n - 1) as nat)
    }
}

/// Start and length of the first longest run of zero segments among the first
/// `n`.
pub open spec fn longest_run(a: Seq<u8>, n: nat) -> (nat, nat)
    decreases n,
{
    if n == 0 {
        (0, 0)
    } else {
        let (start, len) = longest_run(a, (n - 1) as nat);
        let run = zero_run(a, n);
        if run > len {
            ((n - run) as nat, run)
        } else {
            (start, len)
        }
    }
}

/// The segments from `from` to `to`, with colons between them.
pub open spec fn segments(a: Seq<u8>, from: int, to: int) -> Seq<u8>
    decreases to - from,
{
    if to <= from {
        seq![]
    } else if to == from + 1 {
        hex(segment(a, from))
    } else {
        segments(a, from, to - 1) + seq![58u8] + hex(segment(a, to - 1))
    }
}

/// The text of a 16-byte network-order address in its compressed form: the
/// first longest run of at least two zero segments is written `::`, and an
/// IPv4-mapped address ends in a dotted quad.
pub open spec fn ipv6_text(a: Seq<u8>) -> Seq<u8> {
    let (start, len) = longest_run(a, 8);
    if is_mapped(a) {
        seq![58u8, 58u8, 102u8, 102u8, 102u8, 102u8, 58u8] + quad(a[12], a[13], a[14], a[15])
    } else if len > 1 {
        segments(a, 0, start as int) + seq![58u8, 58u8] + segments(a, (start + len) as int, 8)
    } else {
        segments(a, 0, 8)
    }
}

fn segment_of(a: &[u8], i: usize) -> (s: u16)
    requires
        a@.len() == 16,
        i < 8,
    ensures
        s == segment(a@, i as int),
{
    a[2 * i] as u16 * 256 + a[2 * i + 1] as u16
}

fn push_segments(out: &mut Vec<u8>, a: &[u8], from: usize, to: usize)
    requires
        a@.len() == 16,
        from <= to <= 8,
    ensures
        final(out)@ == old(out)@ + segments(a@, from as int, to as int),
{
    let mut i: usize = from;
    assert(out@ =~= old(out)@ + segments(a@, from as int, from as int));
    while i < to
        invariant
            a@.len() == 16,
            from <= i <= to <= 8,
            out@ == old(out)@ + segments(a@, from as int, i as int),
        decreases to - i,
    {
        if i > from {
            out.push(58);
        }
        push_hex(out, segment_of(a, i));
        i = i + 1;
        assert(out@ =~= old(out)@ + segments(a@, from as int, i as int));
    }
}

fn mapped(a: &[u8]) -> (yes: bool)
    requires
        a@.len() == 16,
    ensures
        yes == is_mapped(a@),
{
    let mut i: usize = 0;
    while i < 5
        invariant
            i <= 5,
            a@.len() == 16,
            forall|k: int| 0 <= k < i ==> #[trigger] segment(a@, k) == 0,
        decreases 5 - i,
    {
        if segment_of(a, i) != 0 {
            return false;
        }
        i = i + 1;
    }
    segment_of(a, 5) == 0xffff
}

/// Append the text of a 16-byte network-order address.
pub fn push_ipv6(out: &mut Vec<u8>, a: &[u8])
    requires
        a@.len() == 16,
    ensures
        final(out)@ == old(out)@ + ipv6_text(a@),
{
    if mapped(a) {
        push_all(out, &[58, 58, 102, 102, 102, 102, 58]);
        push_quad(out, a[12], a[13], a[14], a[15]);
        assert(out@ =~= old(out)@ + ipv6_text(a@));
        return ;
    }
    let mut start: usize = 0;
    let mut len: usize = 0;
    let mut run: usize = 0;
    let mut n: usize = 0;
    while n < 8
        invariant
            n <= 8,
            a@.len() == 16,
            run == zero_run(a@, n as nat),
            (start as nat, len as nat) == longest_run(a@, n as nat),
            run <= n,
            start + len <= n,
        decreases 8 - n,
    {
        if segment_of(a, n) == 0 {
            run = run + 1;
        } else {
            run = 0;
        }
        n = n + 1;
        if run > len {
            start = n - run;
            len = run;
        }
    }
    if len > 1 {
        push_segments(out, a, 0, start);
        out.push(58);
        out.push(58);
        push_segments(out, a, start + len, 8);
    } else {
        push_segments(out, a, 0, 8);
    }
    assert(out@ =~= old(out)@ + ipv6_text(a@));
}

} // verus!
