//! Wire protocol primitives: little-endian numbers, `VarUInt` and
//! length-prefixed strings.

use vstd::prelude::*;
use vstd::string::*;

use crate::error::{Error, ErrorView};
use crate::native::texts::{CellKey, CellTexts};
use crate::text::{decimal, push_decimal};

verus! {

/// Hard cap on length-prefixed string and byte-array fields, matching the
/// server's default `max_string_size`.
pub const MAX_STRING_SIZE: u64 = 1_073_741_824;

/// A u64 needs at most 10 seven-bit groups (10 * 7 = 70 >= 64), which is
/// also where the server's `readVarUInt` stops.
pub const VAR_UINT_MAX_BYTES: usize = 10;

/// The outcome of reading one value at a position: the value and the position
/// behind it.
pub type Read<T> = Result<(T, int), ErrorView>;

/// What the readers work on: the bytes, the texts supplied for them, and the
/// number of bytes one column buffer may claim.
#[derive(Clone, Copy)]
pub struct Wire<'a> {
    pub data: &'a [u8],
    pub texts: &'a CellTexts,
    pub budget: usize,
}

/// The mathematical value of a [`Wire`].
pub struct WireView {
    pub bytes: Seq<u8>,
    pub texts: Seq<(CellKey, Seq<u8>)>,
    pub budget: nat,
}

impl<'a> View for Wire<'a> {
    type V = WireView;

    open spec fn view(&self) -> WireView {
        WireView { bytes: self.data@, texts: self.texts@, budget: self.budget as nat }
    }
}

/// `r` is the outcome `s`, at a position within the first `len` bytes.
pub open spec fn reads<T: View>(r: Result<(T, usize), Error>, s: Read<T::V>, len: nat) -> bool {
    match r {
        Ok((v, p)) => s == Ok::<(T::V, int), ErrorView>((v@, p as int)) && p <= len,
        Err(e) => s == Err::<(T::V, int), ErrorView>(e@),
    }
}

/// The bytes of `s` stand at `pos`.
pub open spec fn stands_at(d: Seq<u8>, pos: int, s: Seq<u8>) -> bool {
    0 <= pos && pos + s.len() <= d.len() && d.subrange(pos, pos + s.len()) == s
}

/// What stands at `pos` stands there piece by piece.
pub proof fn lemma_stands_split(d: Seq<u8>, pos: int, a: Seq<u8>, b: Seq<u8>)
    ensures
        stands_at(d, pos, a + b) <==> stands_at(d, pos, a) && stands_at(d, pos + a.len(), b),
{
    if stands_at(d, pos, a + b) {
        let whole = d.subrange(pos, pos + a.len() + b.len());
        assert(d.subrange(pos, pos + a.len()) =~= whole.take(a.len() as int));
        assert(whole.take(a.len() as int) =~= a);
        assert(d.subrange(pos + a.len(), pos + a.len() + b.len()) =~= whole.skip(a.len() as int));
        assert(whole.skip(a.len() as int) =~= b);
    }
    if stands_at(d, pos, a) && stands_at(d, pos + a.len(), b) {
        assert(d.subrange(pos, pos + (a + b).len()) =~= d.subrange(pos, pos + a.len())
            + d.subrange(pos + a.len(), pos + a.len() + b.len()));
    }
}

// ---------------------------------------------------------------------------
// VarUInt
// ---------------------------------------------------------------------------

/// The `VarUInt` encoding of `v`: seven value bits per byte, lowest first,
/// the high bit set on every byte but the last.
pub open spec fn var_uint(v: nat) -> Seq<u8>
    decreases v,
{
    if v < 128 {
        seq![v as u8]
    } else {
        seq![(128 + v % 128) as u8] + var_uint(v / 128)
    }
}

/// 128 to the power `n`.
pub open spec fn pow128(n: nat) -> nat
    decreases n,
{
    if n == 0 {
        1
    } else {
        128 * pow128((n - 1) as nat)
    }
}

/// The error of a `VarUInt` that runs past the ceiling.
pub open spec fn var_uint_overflow() -> ErrorView {
    ErrorView::BadResponse("native protocol: varint continues past 10 bytes"@)
}

/// The number whose seven-bit groups stand at `pos`, at most `left` of them.
pub open spec fn groups_at(d: Seq<u8>, pos: int, left: nat) -> Read<nat>
    decreases left,
{
    if pos >= d.len() {
        Err(ErrorView::NotEnoughData)
    } else if d[pos] < 128 {
        Ok((d[pos] as nat, pos + 1))
    } else if left <= 1 {
        Err(var_uint_overflow())
    } else {
        match groups_at(d, pos + 1, (left - 1) as nat) {
            Ok((v, p)) => Ok(((d[pos] - 128) as nat + 128 * v, p)),
            Err(e) => Err(e),
        }
    }
}

/// The `VarUInt` at `pos`. Bits past the 64th are dropped.
pub open spec fn var_uint_at(d: Seq<u8>, pos: int) -> Read<u64> {
    match groups_at(d, pos, VAR_UINT_MAX_BYTES as nat) {
        Ok((v, p)) => Ok(((v % 0x1_0000_0000_0000_0000) as u64, p)),
        Err(e) => Err(e),
    }
}

proof fn lemma_pow128()
    ensures
        pow128(9) == 0x8000_0000_0000_0000,
        pow128(10) == 0x40_0000_0000_0000_0000,
{
    reveal_with_fuel(pow128, 11);
}

proof fn lemma_pow128_positive(n: nat)
    ensures
        pow128(n) >= 1,
    decreases n,
{
    if n > 0 {
        lemma_pow128_positive((n - 1) as nat);
    }
}

proof fn lemma_pow128_grows(i: nat, j: nat)
    requires
        i <= j,
    ensures
        pow128(i) <= pow128(j),
    decreases j - i,
{
    lemma_pow128_positive(i);
    if i < j {
        lemma_pow128_grows(i + 1, j);
    }
}

/// A number below 128 to the `n` takes at most `n` bytes.
proof fn lemma_var_uint_len(v: nat, n: nat)
    requires
        v < pow128(n),
        n >= 1,
    ensures
        1 <= var_uint(v).len() <= n,
    decreases n,
{
    if v >= 128 {
        assert(n >= 2) by {
            reveal_with_fuel(pow128, 2);
        }
        lemma_var_uint_len(v / 128, (n - 1) as nat);
    }
}

/// A 64-bit number takes at most ten bytes.
pub proof fn lemma_var_uint_bounds(v: u64)
    ensures
        1 <= var_uint(v as nat).len() <= VAR_UINT_MAX_BYTES,
{
    lemma_pow128();
    lemma_var_uint_len(v as nat, 10);
}

proof fn lemma_groups_back(d: Seq<u8>, pos: int, v: nat, left: nat)
    requires
        stands_at(d, pos, var_uint(v)),
        var_uint(v).len() <= left,
    ensures
        groups_at(d, pos, left) == Ok::<(nat, int), ErrorView>((v, pos + var_uint(v).len())),
    decreases v,
{
    let s = d.subrange(pos, pos + var_uint(v).len());
    assert(d[pos] == s[0]);
    if v >= 128 {
        let head = seq![(128 + v % 128) as u8];
        lemma_stands_split(d, pos, head, var_uint(v / 128));
        assert(var_uint(v / 128).len() >= 1);
        lemma_groups_back(d, pos + 1, v / 128, (left - 1) as nat);
        assert(var_uint(v)[0] == (128 + v % 128) as u8);
    } else {
        assert(var_uint(v)[0] == v as u8);
    }
}

/// Reading a `VarUInt` gives back the number that was written, and stops right
/// behind it.
pub proof fn law_var_uint_round_trip(d: Seq<u8>, pos: int, v: u64)
    requires
        stands_at(d, pos, var_uint(v as nat)),
    ensures
        var_uint_at(d, pos) == Ok::<(u64, int), ErrorView>((v, pos + var_uint(v as nat).len())),
{
    lemma_var_uint_bounds(v);
    lemma_groups_back(d, pos, v as nat, 10);
}

/// The groups end within the bytes.
pub proof fn lemma_groups_end(d: Seq<u8>, pos: int, left: nat)
    ensures
        groups_at(d, pos, left) matches Ok((_, p)) ==> pos < p <= d.len(),
    decreases left,
{
    if pos < d.len() && d[pos] >= 128 && left > 1 {
        lemma_groups_end(d, pos + 1, (left - 1) as nat);
    }
}

/// Append `value` as a `VarUInt`.
pub fn push_var_uint(out: &mut Vec<u8>, value: u64)
    ensures
        final(out)@ == old(out)@ + var_uint(value as nat),
{
    let mut rest: u64 = value;
    while rest >= 128
        invariant
            out@ + var_uint(rest as nat) == old(out)@ + var_uint(value as nat),
        decreases rest,
    {
        let ghost before = out@;
        out.push(128 + (rest % 128) as u8);
        proof {
            assert(out@ + var_uint((rest / 128) as nat) =~= before + var_uint(rest as nat));
        }
        rest = rest / 128;
    }
    out.push(rest as u8);
    assert(out@ =~= old(out)@ + var_uint(value as nat));
}

/// Incremental `VarUInt` decoder, fed one byte at a time.
///
/// The state is shared rather than the loop because the readers take their
/// bytes from a `bytes::Bytes`, a stream and a plain slice.
pub struct VarUintDecoder {
    total: u128,
    weight: u128,
    index: usize,
}

impl VarUintDecoder {
    /// The value of the groups absorbed so far.
    pub closed spec fn total(self) -> nat {
        self.total as nat
    }

    /// The number of groups absorbed so far.
    pub closed spec fn index(self) -> nat {
        self.index as nat
    }

    /// The groups absorbed so far fit below the next one.
    pub closed spec fn wf(self) -> bool {
        &&& self.index < VAR_UINT_MAX_BYTES
        &&& self.weight == pow128(self.index as nat)
        &&& self.total < self.weight
    }

    /// A decoder that has absorbed nothing.
    pub fn new() -> (out: Self)
        ensures
            out.wf(),
            out.total() == 0,
            out.index() == 0,
    {
        VarUintDecoder { total: 0, weight: 1, index: 0 }
    }

    /// Absorb one byte. `Ok(Some(v))` when the value is complete,
    /// `Ok(None)` when more bytes are needed.
    pub fn push(&mut self, octet: u8) -> (r: Result<Option<u64>, Error>)
        requires
            old(self).wf(),
        ensures
            match r {
                Ok(Some(v)) => octet < 128 && v == (old(self).total() + octet * pow128(
                    old(self).index(),
                )) % 0x1_0000_0000_0000_0000,
                Ok(None) => {
                    &&& octet >= 128
                    &&& old(self).index() < 9
                    &&& final(self).wf()
                    &&& final(self).index() == old(self).index() + 1
                    &&& final(self).total() == old(self).total() + (octet - 128) * pow128(
                        old(self).index(),
                    )
                },
                Err(e) => octet >= 128 && old(self).index() == 9 && e@ == var_uint_overflow(),
            },
    {
        let group: u128 = (octet % 128) as u128;
        proof {
            lemma_pow128();
            lemma_pow128_grows(self.index as nat, 9);
            assert(group * self.weight <= 127 * self.weight) by (nonlinear_arith)
                requires
                    group <= 127,
            ;
            assert(group * self.weight == self.weight * group) by (nonlinear_arith);
        }
        let sum: u128 = self.total + group * self.weight;
        if octet < 128 {
            return Ok(Some((sum % 0x1_0000_0000_0000_0000) as u64));
        }
        // Stopping short of the ceiling would truncate values >= 2^63 and
        // leave a legitimate final byte unconsumed, misaligning every later
        // read.
        if self.index + 1 == VAR_UINT_MAX_BYTES {
            return Err(VarUintDecoder::overflow());
        }
        self.total = sum;
        self.weight = self.weight * 128;
        self.index = self.index + 1;
        Ok(None)
    }

    fn overflow() -> (e: Error)
        ensures
            e@ == var_uint_overflow(),
    {
        Error::BadResponse("native protocol: varint continues past 10 bytes".to_owned())
    }
}

/// The reading `g` with `total` below it, `weight` being what its unit counts.
pub open spec fn above(total: nat, weight: nat, g: Read<nat>) -> Read<nat> {
    match g {
        Ok((v, p)) => Ok((total + weight * v, p)),
        Err(e) => Err(e),
    }
}

/// The groups at `pos`, seen from behind the first of them.
pub proof fn lemma_groups_step(d: Seq<u8>, pos: int, index: nat, total: nat)
    requires
        index < 9,
        0 <= pos < d.len(),
        d[pos] >= 128,
    ensures
        above(total, pow128(index), groups_at(d, pos, (10 - index) as nat)) == above(
            (total + (d[pos] - 128) * pow128(index)) as nat,
            pow128(index + 1),
            groups_at(d, pos + 1, (9 - index) as nat),
        ),
{
    match groups_at(d, pos + 1, (9 - index) as nat) {
        Ok((v, p)) => {
            let w = pow128(index) as int;
            let g = d[pos] - 128;
            let x = v as int;
            assert(total + w * (g + 128 * x) == total + g * w + (128 * w) * x)
                by (nonlinear_arith);
            assert(g * w >= 0) by (nonlinear_arith)
                requires
                    g >= 0,
                    w >= 0,
            ;
        },
        Err(e) => {},
    }
}

/// The `VarUInt` at `pos`.
pub fn var_uint_from(d: &[u8], pos: usize) -> (r: Result<(u64, usize), Error>)
    requires
        pos <= d@.len(),
    ensures
        reads(r, var_uint_at(d@, pos as int), d@.len()),
{
    let mut decoder = VarUintDecoder::new();
    let mut at: usize = pos;
    proof {
        assert(above(0, pow128(0), groups_at(d@, pos as int, 10)) == groups_at(d@, pos as int, 10));
    }
    while at < d.len()
        invariant
            pos <= at <= d.len(),
            decoder.wf(),
            decoder.index() < 10,
            groups_at(d@, pos as int, 10) == above(
                decoder.total(),
                pow128(decoder.index()),
                groups_at(d@, at as int, (10 - decoder.index()) as nat),
            ),
        decreases d.len() - at,
    {
        let ghost before = decoder;
        proof {
            if d@[at as int] >= 128 && before.index() < 9 {
                lemma_groups_step(d@, at as int, before.index(), before.total());
            }
            let v = d@[at as int] as int;
            let w = pow128(before.index()) as int;
            assert(w * v == v * w) by (nonlinear_arith);
        }
        if let Some(value) = decoder.push(d[at])? {
            return Ok((value, at + 1));
        }
        at = at + 1;
    }
    Err(Error::NotEnoughData)
}

/// Decode a `VarUInt` from the front of `bytes`, returning the value and the
/// byte count it consumed.
///
/// # Errors
///
/// [`Error::NotEnoughData`] if `bytes` ends mid-value, [`Error::BadResponse`]
/// if the value runs past the ceiling.
pub fn get_var_uint(bytes: &[u8]) -> (r: Result<(u64, usize), Error>)
    ensures
        reads(r, var_uint_at(bytes@, 0), bytes@.len()),
{
    var_uint_from(bytes, 0)
}

// ---------------------------------------------------------------------------
// Little-endian numbers
// ---------------------------------------------------------------------------

/// 256 to the power `n`.
pub open spec fn pow256(n: nat) -> nat
    decreases n,
{
    if n == 0 {
        1
    } else {
        256 * pow256((n - 1) as nat)
    }
}

/// The number whose little-endian bytes are `b`.
pub open spec fn le_nat(b: Seq<u8>) -> nat
    decreases b.len(),
{
    if b.len() == 0 {
        0
    } else {
        b[0] as nat + 256 * le_nat(b.drop_first())
    }
}

/// The `width` little-endian bytes of `n`.
pub open spec fn le_bytes(n: nat, width: nat) -> Seq<u8>
    decreases width,
{
    if width == 0 {
        seq![]
    } else {
        seq![(n % 256) as u8] + le_bytes(n / 256, (width - 1) as nat)
    }
}

/// The signed number that `n` stands for in two's complement over `width`
/// bytes.
pub open spec fn twos(n: nat, width: nat) -> int {
    if 2 * n >= pow256(width) {
        n - pow256(width)
    } else {
        n as int
    }
}

/// The two's complement bit pattern of `n` over `width` bytes.
pub open spec fn pattern(n: int, width: nat) -> nat {
    if n < 0 {
        (n + pow256(width)) as nat
    } else {
        n as nat
    }
}

/// 256 to the powers that machine numbers are wide.
pub proof fn lemma_pow256()
    ensures
        pow256(0) == 1,
        pow256(1) == 0x100,
        pow256(2) == 0x1_0000,
        pow256(4) == 0x1_0000_0000,
        pow256(8) == 0x1_0000_0000_0000_0000,
        pow256(16) == 0x1_0000_0000_0000_0000 * 0x1_0000_0000_0000_0000,
{
    reveal_with_fuel(pow256, 9);
    assert(pow256(16) == 0x1_0000_0000_0000_0000 * 0x1_0000_0000_0000_0000) by {
        reveal_with_fuel(pow256, 17);
    }
}

pub proof fn lemma_pow256_grows(i: nat, j: nat)
    requires
        i <= j,
    ensures
        1 <= pow256(i) <= pow256(j),
    decreases j,
{
    if i < j {
        lemma_pow256_grows(i, (j - 1) as nat);
    } else if i > 0 {
        lemma_pow256_grows((i - 1) as nat, (j - 1) as nat);
    }
}

/// Bytes stand for a number below the power of their count.
pub proof fn lemma_le_nat_bound(b: Seq<u8>)
    ensures
        le_nat(b) < pow256(b.len()),
    decreases b.len(),
{
    if b.len() > 0 {
        lemma_le_nat_bound(b.drop_first());
    }
}

/// Little-endian bytes give back the number they were made from, and as many
/// bytes as were asked for.
pub proof fn law_le_round_trip(n: nat, width: nat)
    requires
        n < pow256(width),
    ensures
        le_bytes(n, width).len() == width,
        le_nat(le_bytes(n, width)) == n,
    decreases width,
{
    if width > 0 {
        law_le_round_trip(n / 256, (width - 1) as nat);
        let b = le_bytes(n, width);
        assert(b.drop_first() =~= le_bytes(n / 256, (width - 1) as nat));
    }
}

/// The bytes of the number that bytes stand for are those bytes.
pub proof fn law_le_bytes_back(b: Seq<u8>)
    ensures
        le_bytes(le_nat(b), b.len()) == b,
    decreases b.len(),
{
    if b.len() > 0 {
        law_le_bytes_back(b.drop_first());
        assert(seq![b[0]] + b.drop_first() =~= b);
    }
}

pub proof fn lemma_le_bytes_len(n: nat, width: nat)
    ensures
        le_bytes(n, width).len() == width,
    decreases width,
{
    if width > 0 {
        lemma_le_bytes_len(n / 256, (width - 1) as nat);
    }
}

/// A signed number that fits `width` bytes survives its bit pattern.
pub proof fn law_twos_round_trip(n: int, width: nat)
    requires
        -pow256(width) <= 2 * n < pow256(width),
    ensures
        twos(pattern(n, width), width) == n,
{
}

/// The number whose `width` little-endian bytes start at `pos`.
pub fn le_number(d: &[u8], pos: usize, width: usize) -> (n: u128)
    requires
        width <= 16,
        pos + width <= d@.len(),
    ensures
        n == le_nat(d@.subrange(pos as int, pos + width)),
        n < pow256(width as nat),
{
    let size: usize = d.len();
    let mut n: u128 = 0;
    let mut i: usize = width;
    let end: usize = pos + width;
    while i > 0
        invariant
            i <= width <= 16,
            pos + width <= d@.len(),
            end == pos + width,
            n == le_nat(d@.subrange(pos + i, end as int)),
        decreases i,
    {
        proof {
            let rest = d@.subrange(pos + i, end as int);
            let all = d@.subrange(pos + i - 1, end as int);
            assert(all.drop_first() =~= rest);
            lemma_le_nat_bound(all);
            lemma_pow256_grows(all.len(), 16);
            lemma_pow256();
        }
        i = i - 1;
        n = d[pos + i] as u128 + 256 * n;
    }
    proof {
        lemma_le_nat_bound(d@.subrange(pos as int, end as int));
    }
    n
}

/// Append the `width` little-endian bytes of `n`.
pub fn push_le(out: &mut Vec<u8>, n: u128, width: usize)
    ensures
        final(out)@ == old(out)@ + le_bytes(n as nat, width as nat),
{
    let mut rest: u128 = n;
    let mut left: usize = width;
    while left > 0
        invariant
            out@ + le_bytes(rest as nat, left as nat) == old(out)@ + le_bytes(
                n as nat,
                width as nat,
            ),
        decreases left,
    {
        let ghost before = out@;
        out.push((rest % 256) as u8);
        proof {
            assert(out@ + le_bytes((rest / 256) as nat, (left - 1) as nat) =~= before + le_bytes(
                rest as nat,
                left as nat,
            ));
        }
        rest = rest / 256;
        left = left - 1;
    }
    assert(out@ =~= old(out)@ + le_bytes(n as nat, width as nat));
}

/// The signed number of an 8-bit pattern.
pub fn signed8(n: u8) -> (v: i8)
    ensures
        v == twos(n as nat, 1),
{
    proof {
        lemma_pow256();
        assert(n < 0x80 ==> n as i8 == n) by (bit_vector);
        assert(n >= 0x80 ==> n as i8 == n - 0x100) by (bit_vector);
    }
    n as i8
}

/// The signed number of a 16-bit pattern.
pub fn signed16(n: u16) -> (v: i16)
    ensures
        v == twos(n as nat, 2),
{
    proof {
        lemma_pow256();
        assert(n < 0x8000 ==> n as i16 == n) by (bit_vector);
        assert(n >= 0x8000 ==> n as i16 == n - 0x1_0000) by (bit_vector);
    }
    n as i16
}

/// The signed number of a 32-bit pattern.
pub fn signed32(n: u32) -> (v: i32)
    ensures
        v == twos(n as nat, 4),
{
    proof {
        lemma_pow256();
        assert(n < 0x8000_0000 ==> n as i32 == n) by (bit_vector);
        assert(n >= 0x8000_0000 ==> n as i32 == n - 0x1_0000_0000) by (bit_vector);
    }
    n as i32
}

/// The signed number of a 64-bit pattern.
pub fn signed64(n: u64) -> (v: i64)
    ensures
        v == twos(n as nat, 8),
{
    proof {
        lemma_pow256();
        assert(n < 0x8000_0000_0000_0000 ==> n as i64 == n) by (bit_vector);
        assert(n >= 0x8000_0000_0000_0000 ==> n as i64 == n - 0x1_0000_0000_0000_0000)
            by (bit_vector);
    }
    n as i64
}

/// The signed number of a 128-bit pattern.
pub fn signed128(n: u128) -> (v: i128)
    ensures
        v == twos(n as nat, 16),
{
    proof {
        lemma_pow256();
        assert(n < 0x8000_0000_0000_0000_0000_0000_0000_0000 ==> n as i128 == n) by (bit_vector);
        assert(n >= 0x8000_0000_0000_0000_0000_0000_0000_0000 ==> n as i128 == n
            - 0x1_0000_0000_0000_0000 * 0x1_0000_0000_0000_0000) by (bit_vector);
    }
    n as i128
}

/// The bit pattern of `n` over `width` bytes.
pub fn pattern_of(n: i128, width: usize) -> (p: u128)
    requires
        width <= 16,
        -pow256(width as nat) <= 2 * n < pow256(width as nat),
    ensures
        p == pattern(n as int, width as nat),
{
    if n >= 0 {
        return n as u128;
    }
    let mut modulus: u128 = 1;
    if width == 16 {
        proof {
            lemma_pow256();
        }
        return u128::MAX - ((-(n + 1)) as u128);
    }
    let mut i: usize = 0;
    while i < width
        invariant
            i <= width < 16,
            modulus == pow256(i as nat),
        decreases width - i,
    {
        proof {
            lemma_pow256_grows((i + 1) as nat, 15);
            reveal_with_fuel(pow256, 16);
        }
        modulus = 256 * modulus;
        i = i + 1;
    }
    modulus - ((-n) as u128)
}

// ---------------------------------------------------------------------------
// Runs of bytes and strings
// ---------------------------------------------------------------------------

/// Append `bytes`.
pub fn push_all(out: &mut Vec<u8>, bytes: &[u8])
    ensures
        final(out)@ == old(out)@ + bytes@,
{
    out.extend_from_slice(bytes);
    assert(out@ =~= old(out)@ + bytes@);
}

/// The `n` bytes at `pos`.
pub open spec fn bytes_at(d: Seq<u8>, pos: int, n: nat) -> Read<Seq<u8>> {
    if pos + n <= d.len() {
        Ok((d.subrange(pos, pos + n), pos + n))
    } else {
        Err(ErrorView::NotEnoughData)
    }
}

/// The number whose `width` little-endian bytes stand at `pos`.
pub open spec fn le_at(d: Seq<u8>, pos: int, width: nat) -> Read<nat> {
    if pos + width <= d.len() {
        Ok((le_nat(d.subrange(pos, pos + width)), pos + width))
    } else {
        Err(ErrorView::NotEnoughData)
    }
}

/// The byte at `pos`.
pub open spec fn u8_at(d: Seq<u8>, pos: int) -> Read<u8> {
    if pos < d.len() {
        Ok((d[pos], pos + 1))
    } else {
        Err(ErrorView::NotEnoughData)
    }
}

/// The 32-bit number at `pos`.
pub open spec fn u32_at(d: Seq<u8>, pos: int) -> Read<u32> {
    match le_at(d, pos, 4) {
        Ok((n, p)) => Ok((n as u32, p)),
        Err(e) => Err(e),
    }
}

/// The 64-bit number at `pos`.
pub open spec fn u64_at(d: Seq<u8>, pos: int) -> Read<u64> {
    match le_at(d, pos, 8) {
        Ok((n, p)) => Ok((n as u64, p)),
        Err(e) => Err(e),
    }
}

/// The `n` bytes at `pos`.
pub fn bytes_from(d: &[u8], pos: usize, n: usize) -> (r: Result<(Vec<u8>, usize), Error>)
    requires
        pos <= d@.len(),
    ensures
        reads(r, bytes_at(d@, pos as int, n as nat), d@.len()),
{
    if n > d.len() - pos {
        return Err(Error::NotEnoughData);
    }
    Ok((vstd::slice::slice_to_vec(vstd::slice::slice_subrange(d, pos, pos + n)), pos + n))
}

/// The byte at `pos`.
pub fn u8_from(d: &[u8], pos: usize) -> (r: Result<(u8, usize), Error>)
    requires
        pos <= d@.len(),
    ensures
        reads(r, u8_at(d@, pos as int), d@.len()),
{
    if pos < d.len() {
        Ok((d[pos], pos + 1))
    } else {
        Err(Error::NotEnoughData)
    }
}

/// The 32-bit number at `pos`.
pub fn u32_from(d: &[u8], pos: usize) -> (r: Result<(u32, usize), Error>)
    requires
        pos <= d@.len(),
    ensures
        reads(r, u32_at(d@, pos as int), d@.len()),
{
    if 4 > d.len() - pos {
        return Err(Error::NotEnoughData);
    }
    proof {
        lemma_pow256();
    }
    Ok((le_number(d, pos, 4) as u32, pos + 4))
}

/// The 64-bit number at `pos`.
pub fn u64_from(d: &[u8], pos: usize) -> (r: Result<(u64, usize), Error>)
    requires
        pos <= d@.len(),
    ensures
        reads(r, u64_at(d@, pos as int), d@.len()),
{
    if 8 > d.len() - pos {
        return Err(Error::NotEnoughData);
    }
    proof {
        lemma_pow256();
    }
    Ok((le_number(d, pos, 8) as u64, pos + 8))
}

/// The error of a string longer than the cap.
pub open spec fn string_too_large(len: nat) -> ErrorView {
    ErrorView::BadResponse(
        "native protocol: string too large: "@ + decimal(len) + " > "@ + decimal(
            MAX_STRING_SIZE as nat,
        ),
    )
}

/// Reject a wire length above [`MAX_STRING_SIZE`], comparing in `u64` so a
/// 32-bit host cannot truncate its way past the cap.
pub fn checked_string_len(len: u64) -> (r: Result<u64, Error>)
    ensures
        match r {
            Ok(n) => len <= MAX_STRING_SIZE && n == len,
            Err(e) => len > MAX_STRING_SIZE && e@ == string_too_large(len as nat),
        },
{
    if len > MAX_STRING_SIZE {
        let mut text = "native protocol: string too large: ".to_owned();
        push_decimal(&mut text, len as u128);
        text.append(" > ");
        push_decimal(&mut text, MAX_STRING_SIZE as u128);
        return Err(Error::BadResponse(text));
    }
    Ok(len)
}

/// The length-prefixed string that stands for `s` on the wire.
pub open spec fn string(s: Seq<u8>) -> Seq<u8> {
    var_uint(s.len()) + s
}

/// The length-prefixed string at `pos`.
pub open spec fn string_at(d: Seq<u8>, pos: int) -> Read<Seq<u8>> {
    match var_uint_at(d, pos) {
        Ok((len, p)) => if len > MAX_STRING_SIZE {
            Err(string_too_large(len as nat))
        } else {
            bytes_at(d, p, len as nat)
        },
        Err(e) => Err(e),
    }
}

/// The length-prefixed string at `pos`.
pub fn string_from(d: &[u8], pos: usize) -> (r: Result<(Vec<u8>, usize), Error>)
    requires
        pos <= d@.len(),
    ensures
        reads(r, string_at(d@, pos as int), d@.len()),
{
    let (len, p) = var_uint_from(d, pos)?;
    let len = checked_string_len(len)?;
    bytes_from(d, p, len as usize)
}

/// Append `value` as a `VarUInt` length followed by its bytes.
pub fn push_string(out: &mut Vec<u8>, value: &[u8])
    ensures
        final(out)@ == old(out)@ + string(value@),
{
    push_var_uint(out, value.len() as u64);
    push_all(out, value);
    assert(out@ =~= old(out)@ + string(value@));
}

/// Reading a string gives back the bytes that were written, up to the size
/// cap, and stops right behind them.
pub proof fn law_string_round_trip(d: Seq<u8>, pos: int, s: Seq<u8>)
    requires
        stands_at(d, pos, string(s)),
        s.len() <= MAX_STRING_SIZE,
    ensures
        string_at(d, pos) == Ok::<(Seq<u8>, int), ErrorView>((s, pos + string(s).len())),
{
    lemma_stands_split(d, pos, var_uint(s.len()), s);
    law_var_uint_round_trip(d, pos, s.len() as u64);
}

/// The text that `String::from_utf8` reports for bytes that are not UTF-8.
pub uninterp spec fn utf8_error_text(bytes: Seq<u8>) -> Seq<char>;

/// `String::from_utf8`: the text of valid UTF-8, or the text of its error,
/// which is a function of the bytes.
#[verifier::external_body]
pub(crate) fn utf8_text(bytes: Vec<u8>) -> (r: Result<String, String>)
    ensures
        match r {
            Ok(s) => vstd::utf8::valid_utf8(bytes@) && s@ == vstd::utf8::decode_utf8(bytes@),
            Err(t) => !vstd::utf8::valid_utf8(bytes@) && t@ == utf8_error_text(bytes@),
        },
{
    String::from_utf8(bytes).map_err(|e| format!("{e}"))
}

/// The text that `bytes` are in UTF-8.
pub open spec fn utf8(bytes: Seq<u8>) -> Result<Seq<char>, ErrorView> {
    if vstd::utf8::valid_utf8(bytes) {
        Ok(vstd::utf8::decode_utf8(bytes))
    } else {
        Err(
            ErrorView::BadResponse("native protocol: invalid utf8: "@ + utf8_error_text(bytes)),
        )
    }
}

/// The length-prefixed UTF-8 string at `pos`.
pub open spec fn utf8_string_at(d: Seq<u8>, pos: int) -> Read<Seq<char>> {
    match string_at(d, pos) {
        Ok((bytes, p)) => match utf8(bytes) {
            Ok(s) => Ok((s, p)),
            Err(e) => Err(e),
        },
        Err(e) => Err(e),
    }
}

/// The length-prefixed UTF-8 string at `pos`.
pub fn utf8_string_from(d: &[u8], pos: usize) -> (r: Result<(String, usize), Error>)
    requires
        pos <= d@.len(),
    ensures
        reads(r, utf8_string_at(d@, pos as int), d@.len()),
{
    let (bytes, p) = string_from(d, pos)?;
    match utf8_text(bytes) {
        Ok(s) => Ok((s, p)),
        Err(t) => {
            let mut text = "native protocol: invalid utf8: ".to_owned();
            text.append(t.as_str());
            Err(Error::BadResponse(text))
        },
    }
}

/// A varuint, or `None` when the bytes ended cleanly on a block boundary.
pub open spec fn var_uint_or_eof_at(d: Seq<u8>, pos: int) -> Read<Option<u64>> {
    if pos == d.len() {
        Ok((None, pos))
    } else {
        match var_uint_at(d, pos) {
            Ok((v, p)) => Ok((Some(v), p)),
            Err(e) => Err(e),
        }
    }
}

/// A varuint, or `None` when the bytes ended cleanly on a block boundary.
///
/// A `FORMAT Native` body is a bare run of blocks with no terminator, so the
/// only way to know it is finished is that the next block's first byte never
/// arrives. Ending part-way through a value is still an error.
pub fn var_uint_or_eof(d: &[u8], pos: usize) -> (r: Result<(Option<u64>, usize), Error>)
    requires
        pos <= d@.len(),
    ensures
        reads(r, var_uint_or_eof_at(d@, pos as int), d@.len()),
{
    if pos == d.len() {
        return Ok((None, pos));
    }
    let (v, p) = var_uint_from(d, pos)?;
    Ok((Some(v), p))
}

// ---------------------------------------------------------------------------
// Buffers and runs of values
// ---------------------------------------------------------------------------

/// The error of a column buffer of `bytes` bytes that is over the budget.
pub open spec fn alloc_refused(bytes: nat) -> ErrorView {
    ErrorView::BadResponse(
        "native protocol: refused a "@ + decimal(
            if bytes > usize::MAX {
                usize::MAX as nat
            } else {
                bytes
            },
        ) + "-byte column buffer the allocator could not back"@,
    )
}

/// Whether a buffer of `cap` elements of `T` stays within the budget.
pub open spec fn claim<T>(cap: nat, budget: nat) -> Result<(), ErrorView> {
    if cap * vstd::layout::size_of::<T>() > budget {
        Err(alloc_refused(cap * vstd::layout::size_of::<T>()))
    } else {
        Ok(())
    }
}

/// Empty `Vec<T>` for `cap` elements, refused when they would take more than
/// `budget` bytes, because `cap` derives from a server-controlled count.
///
/// The buffer commits memory only as elements arrive.
pub fn with_cap<T>(cap: usize, budget: usize) -> (r: Result<Vec<T>, Error>)
    ensures
        match r {
            Ok(v) => v@.len() == 0 && claim::<T>(cap as nat, budget as nat) is Ok,
            Err(e) => claim::<T>(cap as nat, budget as nat) == Err::<(), ErrorView>(e@),
        },
{
    let size: usize = core::mem::size_of::<T>();
    let bytes: u128 = {
        proof {
            assert(cap * size <= 0xffff_ffff_ffff_ffff * 0xffff_ffff_ffff_ffff)
                by (nonlinear_arith)
                requires
                    0 <= cap <= 0xffff_ffff_ffff_ffff,
                    0 <= size <= 0xffff_ffff_ffff_ffff,
            ;
        }
        cap as u128 * size as u128
    };
    if bytes > budget as u128 {
        let shown: u128 = if bytes > usize::MAX as u128 {
            usize::MAX as u128
        } else {
            bytes
        };
        let mut text = "native protocol: refused a ".to_owned();
        push_decimal(&mut text, shown);
        text.append("-byte column buffer the allocator could not back");
        return Err(Error::BadResponse(text));
    }
    Ok(Vec::new())
}

/// `n` values read one behind the other, each by `read`.
pub open spec fn many<T>(read: spec_fn(int) -> Read<T>, pos: int, n: nat) -> Read<Seq<T>>
    decreases n,
{
    if n == 0 {
        Ok((seq![], pos))
    } else {
        match many(read, pos, (n - 1) as nat) {
            Ok((xs, p)) => match read(p) {
                Ok((x, q)) => Ok((xs.push(x), q)),
                Err(e) => Err(e),
            },
            Err(e) => Err(e),
        }
    }
}

/// A run that fails early fails altogether.
pub proof fn lemma_many_err<T>(read: spec_fn(int) -> Read<T>, pos: int, k: nat, n: nat)
    requires
        k <= n,
        many(read, pos, k) is Err,
    ensures
        many(read, pos, n) == many(read, pos, k),
    decreases n,
{
    if k < n {
        lemma_many_err(read, pos, k, (n - 1) as nat);
    }
}

/// A run that succeeds holds as many values as were read.
pub proof fn lemma_many_len<T>(read: spec_fn(int) -> Read<T>, pos: int, n: nat)
    ensures
        match many(read, pos, n) {
            Ok((xs, p)) => xs.len() == n,
            Err(_) => true,
        },
    decreases n,
{
    if n > 0 {
        lemma_many_len(read, pos, (n - 1) as nat);
    }
}

/// What `f` makes of the numbers below `n`, or the first error it meets.
pub open spec fn table<T>(f: spec_fn(int) -> Result<T, ErrorView>, n: nat) -> Result<
    Seq<T>,
    ErrorView,
>
    decreases n,
{
    if n == 0 {
        Ok(seq![])
    } else {
        match table(f, (n - 1) as nat) {
            Ok(xs) => match f(n - 1) {
                Ok(x) => Ok(xs.push(x)),
                Err(e) => Err(e),
            },
            Err(e) => Err(e),
        }
    }
}

/// A table that fails early fails altogether.
pub proof fn lemma_table_err<T>(f: spec_fn(int) -> Result<T, ErrorView>, k: nat, n: nat)
    requires
        k <= n,
        table(f, k) is Err,
    ensures
        table(f, n) == table(f, k),
    decreases n,
{
    if k < n {
        lemma_table_err(f, k, (n - 1) as nat);
    }
}

/// A table that succeeds holds an entry per number.
pub proof fn lemma_table_len<T>(f: spec_fn(int) -> Result<T, ErrorView>, n: nat)
    ensures
        table(f, n) matches Ok(xs) ==> xs.len() == n,
    decreases n,
{
    if n > 0 {
        lemma_table_len(f, (n - 1) as nat);
    }
}

/// One value per item, read one behind the other.
pub open spec fn chain<A, T>(items: Seq<A>, read: spec_fn(int, A) -> Read<T>, pos: int) -> Read<
    Seq<T>,
>
    decreases items.len(),
{
    if items.len() == 0 {
        Ok((seq![], pos))
    } else {
        match chain(items.drop_last(), read, pos) {
            Ok((xs, p)) => match read(p, items.last()) {
                Ok((x, q)) => Ok((xs.push(x), q)),
                Err(e) => Err(e),
            },
            Err(e) => Err(e),
        }
    }
}

/// A chain that fails early fails altogether.
pub proof fn lemma_chain_err<A, T>(
    items: Seq<A>,
    read: spec_fn(int, A) -> Read<T>,
    pos: int,
    k: int,
)
    requires
        0 <= k <= items.len(),
        chain(items.take(k), read, pos) is Err,
    ensures
        chain(items, read, pos) == chain(items.take(k), read, pos),
    decreases items.len() - k,
{
    if k < items.len() {
        assert(items.take(k + 1).drop_last() =~= items.take(k));
        lemma_chain_err(items, read, pos, k + 1);
    } else {
        assert(items.take(k) =~= items);
    }
}

/// A chain that succeeds holds a value per item.
pub proof fn lemma_chain_len<A, T>(items: Seq<A>, read: spec_fn(int, A) -> Read<T>, pos: int)
    ensures
        chain(items, read, pos) matches Ok((xs, p)) ==> xs.len() == items.len(),
    decreases items.len(),
{
    if items.len() > 0 {
        lemma_chain_len(items.drop_last(), read, pos);
    }
}

} // verus!
