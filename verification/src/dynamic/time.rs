//! Dates and times as the row encoder reads them. All timestamps are UTC; a
//! datetime string with another offset is rejected rather than silently
//! shifted.

use vstd::prelude::*;
use vstd::string::*;

use crate::dynamic::error::{enc_err, refusal, DynamicError, DynamicErrorView};
use crate::dynamic::value::{Json, Number, NumberView, Value};
use crate::text::{
    all_digits, chars_of, number, parse_signed, parse_unsigned, parse_within, spells,
    text_of, trim, trimmed, Strip,
};

verus! {

// ---------------------------------------------------------------------------
// The calendar
// ---------------------------------------------------------------------------

/// Whether year `y` of the Gregorian calendar has a 29th of February.
pub open spec fn is_leap(y: int) -> bool {
    y % 4 == 0 && (y % 100 != 0 || y % 400 == 0)
}

/// How many days year `y` has.
pub open spec fn year_len(y: int) -> int {
    if is_leap(y) {
        366
    } else {
        365
    }
}

/// Days from 1970-01-01 to the first day of year `y`.
pub open spec fn year_start(y: int) -> int
    decreases
        (if y >= 1970 {
            y - 1970
        } else {
            1970 - y
        }),
{
    if y == 1970 {
        0
    } else if y > 1970 {
        year_start(y - 1) + year_len(y - 1)
    } else {
        year_start(y + 1) - year_len(y)
    }
}

/// How many days month `m` of year `y` has.
pub open spec fn month_len(y: int, m: int) -> int {
    if m == 2 {
        if is_leap(y) {
            29
        } else {
            28
        }
    } else if m == 4 || m == 6 || m == 9 || m == 11 {
        30
    } else {
        31
    }
}

/// Days from the first day of year `y` to the first day of its month `m`.
pub open spec fn month_start(y: int, m: int) -> int
    decreases m,
{
    if m <= 1 {
        0
    } else {
        month_start(y, m - 1) + month_len(y, m - 1)
    }
}

/// Days from 1970-01-01 to a civil date. A day past the end of its month
/// counts on into the next.
pub open spec fn civil_days(y: int, m: int, d: int) -> int {
    year_start(y) + month_start(y, m) + d - 1
}

/// The first day of March of year `y`, counted from the first day of March of
/// year 0.
#[verifier::opaque]
spec fn march_start(y: int) -> int {
    y * 365 + y / 4 - y / 100 + y / 400
}

/// How far a quotient moves with its dividend.
proof fn lemma_quotient_step(y: int, d: int)
    requires
        d > 1,
    ensures
        (y + 1) % d == 0 ==> (y + 1) / d == y / d + 1,
        (y + 1) % d != 0 ==> (y + 1) / d == y / d,
{
    let q = y / d;
    let r = y % d;
    vstd::arithmetic::div_mod::lemma_fundamental_div_mod(y, d);
    if r + 1 == d {
        assert(y + 1 == d * (q + 1) + 0) by (nonlinear_arith)
            requires
                y == d * q + r,
                r + 1 == d,
        ;
        vstd::arithmetic::div_mod::lemma_fundamental_div_mod_converse(y + 1, d, q + 1, 0);
    } else {
        assert(y + 1 == d * q + (r + 1));
        vstd::arithmetic::div_mod::lemma_fundamental_div_mod_converse(y + 1, d, q, r + 1);
    }
}

proof fn lemma_march_step(y: int)
    ensures
        march_start(y + 1) == march_start(y) + year_len(y + 1),
{
    reveal(march_start);
    lemma_quotient_step(y, 4);
    lemma_quotient_step(y, 100);
    lemma_quotient_step(y, 400);
}

proof fn lemma_year_start(y: int)
    ensures
        march_start(y) - 719_468 == year_start(y) + month_start(y, 3),
    decreases
        (if y >= 1970 {
            y - 1970
        } else {
            1970 - y
        }),
{
    reveal(march_start);
    reveal_with_fuel(month_start, 4);
    if y > 1970 {
        lemma_year_start(y - 1);
        lemma_march_step(y - 1);
    } else if y < 1970 {
        lemma_year_start(y + 1);
        lemma_march_step(y);
    }
}

proof fn lemma_march_days(y: int, m: int)
    requires
        1 <= m <= 12,
    ensures
        m >= 3 ==> month_start(y, m) == month_start(y, 3) + (153 * (m - 3) + 2) / 5,
        m <= 2 ==> year_start(y) + month_start(y, m) == year_start(y - 1) + month_start(y - 1, 3)
            + (153 * (m + 9) + 2) / 5,
{
    reveal_with_fuel(month_start, 13);
    if y > 1970 {
        assert(year_start(y) == year_start(y - 1) + year_len(y - 1));
    } else {
        assert(year_start(y - 1) == year_start(y) - year_len(y - 1));
    }
}

proof fn lemma_march_split(y: int)
    ensures
        march_start(y) == (y / 400) * 146_097 + (y % 400) * 365 + (y % 400) / 4 - (y % 400) / 100,
{
    reveal(march_start);
    let q = y / 400;
    let r = y % 400;
    vstd::arithmetic::div_mod::lemma_fundamental_div_mod(y, 400);
    vstd::arithmetic::div_mod::lemma_fundamental_div_mod(r, 4);
    vstd::arithmetic::div_mod::lemma_fundamental_div_mod(r, 100);
    assert(y == 4 * (100 * q + r / 4) + r % 4);
    assert(y == 100 * (4 * q + r / 100) + r % 100);
    vstd::arithmetic::div_mod::lemma_fundamental_div_mod_converse(y, 4, 100 * q + r / 4, r % 4);
    vstd::arithmetic::div_mod::lemma_fundamental_div_mod_converse(
        y,
        100,
        4 * q + r / 100,
        r % 100,
    );
}

proof fn lemma_civil_days(y: int, m: int, d: int)
    requires
        1 <= m <= 12,
    ensures
        m >= 3 ==> civil_days(y, m, d) == march_start(y) - 719_468 + (153 * (m - 3) + 2) / 5 + d
            - 1,
        m <= 2 ==> civil_days(y, m, d) == march_start(y - 1) - 719_468 + (153 * (m + 9) + 2) / 5
            + d - 1,
{
    lemma_year_start(y);
    lemma_year_start(y - 1);
    lemma_march_days(y, m);
}

/// The quotient and the remainder of `n`, the remainder never negative.
fn floor_parts(n: i64, d: i64) -> (r: (i64, i64))
    requires
        0 < d,
    ensures
        r.0 == n as int / d as int,
        r.1 == n as int % d as int,
        0 <= r.1 < d,
{
    proof {
        let x = n as int;
        let y = d as int;
        assert(i64::MIN <= x / y <= i64::MAX) by (nonlinear_arith)
            requires
                i64::MIN <= x <= i64::MAX,
                y >= 1,
        ;
    }
    let quotient: i64 = match n.checked_div_euclid(d) {
        Some(q) => q,
        None => 0,
    };
    let rest: i64 = match n.checked_rem_euclid(d) {
        Some(q) => q,
        None => 0,
    };
    (quotient, rest)
}

/// Days since 1970-01-01 for a civil date (Howard Hinnant's algorithm).
pub fn civil_days_from_epoch(year: i32, month: u32, day: u32) -> (days: i64)
    requires
        1 <= month <= 12,
        month <= 2 ==> year > i32::MIN,
    ensures
        days == civil_days(year as int, month as int, day as int),
{
    let y: i64 = if month <= 2 {
        year as i64 - 1
    } else {
        year as i64
    };
    let m: i64 = if month <= 2 {
        month as i64 + 9
    } else {
        month as i64 - 3
    };
    let (era, yoe) = floor_parts(y, 400);
    let doy: i64 = (153 * m + 2) / 5 + day as i64 - 1;
    let doe: i64 = yoe * 365 + yoe / 4 - yoe / 100 + doy;
    proof {
        lemma_civil_days(year as int, month as int, day as int);
        lemma_march_split(y as int);
    }
    era * 146_097 + doe - 719_468
}

// ---------------------------------------------------------------------------
// Datetime strings
// ---------------------------------------------------------------------------

/// Ten to the power `n`.
pub open spec fn pow10(n: nat) -> nat
    decreases n,
{
    if n == 0 {
        1
    } else {
        10 * pow10((n - 1) as nat)
    }
}

proof fn lemma_pow10()
    ensures
        pow10(9) == 1_000_000_000,
        pow10(18) == 1_000_000_000_000_000_000,
{
    reveal_with_fuel(pow10, 19);
}

pub proof fn lemma_pow10_grows(i: nat, j: nat)
    requires
        i <= j,
    ensures
        1 <= pow10(i) <= pow10(j),
    decreases j,
{
    if i < j {
        lemma_pow10_grows(i, (j - 1) as nat);
    } else if i > 0 {
        lemma_pow10_grows((i - 1) as nat, (i - 1) as nat);
    }
}

pub proof fn lemma_pow10_product(i: nat, j: nat)
    ensures
        pow10(i) * pow10(j) == pow10(i + j),
    decreases i,
{
    if i > 0 {
        lemma_pow10_product((i - 1) as nat, j);
        let a = pow10((i - 1) as nat) as int;
        let b = pow10(j) as int;
        assert((10 * a) * b == 10 * (a * b)) by (nonlinear_arith);
    } else {
        assert(1 * pow10(j) == pow10(j));
    }
}

/// Digits spell less than a power of ten.
pub proof fn lemma_number_below(s: Seq<char>)
    requires
        all_digits(s),
    ensures
        number(s) < pow10(s.len()),
    decreases s.len(),
{
    if s.len() > 0 {
        let before = s.drop_last();
        assert(all_digits(before));
        lemma_number_below(before);
        assert('0' <= s[s.len() - 1] <= '9');
    }
}

fn ten_to(n: u32) -> (r: i64)
    requires
        n <= 18,
    ensures
        r == pow10(n as nat),
{
    proof {
        lemma_pow10();
    }
    let mut r: i64 = 1;
    let mut i: u32 = 0;
    while i < n
        invariant
            i <= n <= 18,
            r == pow10(i as nat),
            pow10(18) == 1_000_000_000_000_000_000,
        decreases n - i,
    {
        proof {
            lemma_pow10_grows((i + 1) as nat, 18);
        }
        r = r * 10;
        i += 1;
    }
    r
}

/// The UTF-8 bytes of `s`, each as the character of its number.
pub open spec fn octet_chars(s: Seq<char>) -> Seq<char> {
    vstd::utf8::encode_utf8(s).map_values(|b: u8| b as char)
}

fn octets(s: &[char]) -> (out: Vec<char>)
    ensures
        out@ == octet_chars(s@),
{
    let text = text_of(s);
    let bytes = text.as_str().as_bytes();
    let mut out: Vec<char> = Vec::new();
    let mut i: usize = 0;
    while i < bytes.len()
        invariant
            i <= bytes.len(),
            bytes@ == vstd::utf8::encode_utf8(s@),
            out@ =~= octet_chars(s@).take(i as int),
        decreases bytes.len() - i,
    {
        out.push(bytes[i] as char);
        i += 1;
    }
    assert(octet_chars(s@).take(i as int) =~= octet_chars(s@));
    out
}

/// The error text of a string that is no datetime.
pub open spec fn bad_datetime() -> Seq<char> {
    "invalid DateTime string"@
}

/// How many digits stand at `pos`.
pub open spec fn digit_run(s: Seq<char>, pos: nat) -> nat
    decreases s.len() - pos,
{
    if pos < s.len() && '0' <= s[pos as int] <= '9' {
        1 + digit_run(s, pos + 1)
    } else {
        0
    }
}

pub proof fn lemma_digit_run(s: Seq<char>, pos: nat)
    requires
        pos <= s.len(),
    ensures
        pos + digit_run(s, pos) <= s.len(),
        forall|i: int| pos <= i < pos + digit_run(s, pos) ==> '0' <= #[trigger] s[i] <= '9',
    decreases s.len() - pos,
{
    if pos < s.len() && '0' <= s[pos as int] <= '9' {
        lemma_digit_run(s, pos + 1);
    }
}

/// The nanoseconds of a fraction at position 19, and where it ends. Digits past
/// the ninth are dropped.
pub open spec fn fraction_at(s: Seq<char>) -> Result<(nat, nat), Seq<char>> {
    if s.len() > 19 && s[19] == '.' {
        let n = digit_run(s, 20);
        if n == 0 {
            Err(bad_datetime())
        } else if n < 9 {
            Ok((number(s.subrange(20, 20 + n as int)) * pow10((9 - n) as nat), 20 + n))
        } else {
            Ok((number(s.subrange(20, 29)), 20 + n))
        }
    } else {
        Ok((0, 19))
    }
}

/// Whether an offset `hh:mm` stands at `pos`, behind its sign.
pub open spec fn offset_at(s: Seq<char>, pos: int) -> bool {
    &&& pos + 5 <= s.len()
    &&& s[pos + 2] == ':'
    &&& '0' <= s[pos] <= '9'
    &&& '0' <= s[pos + 1] <= '9'
    &&& '0' <= s[pos + 3] <= '9'
    &&& '0' <= s[pos + 4] <= '9'
}

/// Where a datetime whose digits end at `pos` ends: behind a `Z`, or behind an
/// offset, which must be zero.
pub open spec fn zone_end(s: Seq<char>, pos: int) -> Result<int, Seq<char>> {
    if pos >= s.len() {
        Ok(pos)
    } else if s[pos] == 'Z' {
        Ok(pos + 1)
    } else if (s[pos] == '+' || s[pos] == '-') && offset_at(s, pos + 1) {
        let zone = s.subrange(pos + 1, pos + 6);
        if s[pos] == '-' || zone != "00:00"@ {
            Err(
                "non-UTC timezone offset '"@ + seq![s[pos]] + zone
                    + "' not supported; convert to UTC first"@,
            )
        } else {
            Ok(pos + 6)
        }
    } else {
        Ok(pos)
    }
}

/// The number that a field of digits spells.
pub open spec fn field(s: Seq<char>) -> Option<int> {
    if s.len() > 0 && all_digits(s) {
        Some(number(s) as int)
    } else {
        None
    }
}

/// The date and the time of day that the first nineteen bytes spell, in
/// seconds since 1970-01-01.
pub open spec fn clock_at(s: Seq<char>) -> Result<int, Seq<char>> {
    match field(s.subrange(0, 4)) {
        None => Err("invalid year"@),
        Some(year) => match field(s.subrange(5, 7)) {
            None => Err("invalid month"@),
            Some(month) => match field(s.subrange(8, 10)) {
                None => Err("invalid day"@),
                Some(day) => match field(s.subrange(11, 13)) {
                    None => Err("invalid hour"@),
                    Some(hour) => match field(s.subrange(14, 16)) {
                        None => Err("invalid minute"@),
                        Some(min) => match field(s.subrange(17, 19)) {
                            None => Err("invalid second"@),
                            Some(sec) => if 1 <= month <= 12 && 1 <= day <= 31 && hour <= 23 && min
                                <= 59 && sec <= 59 {
                                Ok(
                                    civil_days(year, month, day) * 86_400 + hour * 3_600 + min * 60
                                        + sec,
                                )
                            } else {
                                Err(bad_datetime())
                            },
                        },
                    },
                },
            },
        },
    }
}

/// Whether a text has the separators of `YYYY-MM-DD[ T]HH:MM:SS` in their
/// places.
pub open spec fn is_datetime(s: Seq<char>) -> bool {
    &&& s.len() >= 19
    &&& s[4] == '-' && s[7] == '-'
    &&& s[10] == ' ' || s[10] == 'T'
    &&& s[13] == ':' && s[16] == ':'
}

/// `YYYY-MM-DD[ T]HH:MM:SS[.frac][Z|+00:00]` as seconds since 1970-01-01 and
/// nanoseconds. UTC only; other offsets are rejected.
pub open spec fn datetime_of(s: Seq<char>) -> Result<(int, nat), Seq<char>> {
    if !is_datetime(s) {
        Err(bad_datetime())
    } else {
        match fraction_at(s) {
            Err(e) => Err(e),
            Ok((nanos, pos)) => match zone_end(s, pos as int) {
                Err(e) => Err(e),
                Ok(end) => if end != s.len() {
                    Err(bad_datetime())
                } else {
                    match clock_at(s) {
                        Ok(secs) => Ok((secs, nanos)),
                        Err(e) => Err(e),
                    }
                },
            },
        }
    }
}

/// The number that the field of `s` from `from` up to `to` spells.
fn part(s: &[char], from: usize, to: usize) -> (out: Option<i32>)
    requires
        from < to <= s@.len(),
        to - from <= 4,
    ensures
        match out {
            Some(v) => field(s@.subrange(from as int, to as int)) == Some(v as int) && 0 <= v
                < pow10((to - from) as nat) <= 10_000,
            None => field(s@.subrange(from as int, to as int)) is None,
        },
{
    let text = vstd::slice::slice_subrange(s, from, to);
    proof {
        if all_digits(text@) {
            lemma_number_below(text@);
            lemma_pow10_grows(text@.len(), 4);
            assert(pow10(4) == 10_000) by {
                reveal_with_fuel(pow10, 5);
            }
            assert('0' <= text@[0] <= '9');
        }
    }
    if text[0] == '+' {
        return None;
    }
    match parse_unsigned(text, 10_000) {
        Some(v) => Some(v as i32),
        None => None,
    }
}

fn read_fraction(s: &[char]) -> (r: Result<(u32, usize), String>)
    requires
        s@.len() >= 19,
    ensures
        match r {
            Ok((nanos, pos)) => fraction_at(s@) == Ok::<(nat, nat), Seq<char>>(
                (nanos as nat, pos as nat),
            ) && nanos < 1_000_000_000 && pos <= s@.len(),
            Err(e) => fraction_at(s@) == Err::<(nat, nat), Seq<char>>(e@),
        },
{
    if s.len() == 19 || s[19] != '.' {
        return Ok((0, 19));
    }
    let mut pos: usize = 20;
    while pos < s.len() && '0' <= s[pos] && s[pos] <= '9'
        invariant
            20 <= pos <= s.len(),
            digit_run(s@, 20) == pos - 20 + digit_run(s@, pos as nat),
        ensures
            20 <= pos <= s.len(),
            digit_run(s@, 20) == pos - 20,
        decreases s.len() - pos,
    {
        pos += 1;
    }
    let n: usize = pos - 20;
    if n == 0 {
        return Err("invalid DateTime string".to_owned());
    }
    let clamped: usize = if n < 9 {
        n
    } else {
        9
    };
    let digits = vstd::slice::slice_subrange(s, 20, 20 + clamped);
    let rest: u32 = 9 - clamped as u32;
    let ghost k = number(digits@);
    proof {
        lemma_digit_run(s@, 20);
        assert forall|i: int| 0 <= i < digits@.len() implies '0' <= #[trigger] digits@[i] <= '9' by {
            assert(digits@[i] == s@[20 + i]);
        }
        lemma_number_below(digits@);
        lemma_pow10_product(clamped as nat, rest as nat);
        lemma_pow10();
        lemma_pow10_grows(rest as nat, 9);
        lemma_pow10_grows(clamped as nat, 9);
        let a = pow10(clamped as nat) as int;
        let b = pow10(rest as nat) as int;
        assert(k * b < a * b) by (nonlinear_arith)
            requires
                0 <= k < a,
                b >= 1,
        ;
        assert(k <= k * b) by (nonlinear_arith)
            requires
                k >= 0,
                b >= 1,
        ;
    }
    let frac: i64 = match parse_signed(digits, 0, 999_999_999) {
        Some(v) => v as i64,
        None => 0,
    };
    let nanos: i64 = frac * ten_to(rest);
    proof {
        if n >= 9 {
            assert(pow10(0) == 1);
            assert(k * 1 == k);
        }
    }
    Ok((nanos as u32, pos))
}

fn is_digit(c: char) -> (yes: bool)
    ensures
        yes == ('0' <= c <= '9'),
{
    '0' <= c && c <= '9'
}

fn read_zone(s: &[char], pos: usize) -> (r: Result<usize, String>)
    requires
        pos <= s@.len(),
    ensures
        match r {
            Ok(end) => zone_end(s@, pos as int) == Ok::<int, Seq<char>>(end as int),
            Err(e) => zone_end(s@, pos as int) == Err::<int, Seq<char>>(e@),
        },
{
    if pos >= s.len() {
        return Ok(pos);
    }
    let sign = s[pos];
    if sign == 'Z' {
        return Ok(pos + 1);
    }
    if (sign == '+' || sign == '-') && s.len() - pos >= 6 && s[pos + 3] == ':' && is_digit(
        s[pos + 1],
    ) && is_digit(s[pos + 2]) && is_digit(s[pos + 4]) && is_digit(s[pos + 5]) {
        let zone = vstd::slice::slice_subrange(s, pos + 1, pos + 6);
        if sign == '-' || !spells(zone, "00:00") {
            let mut text = "non-UTC timezone offset '".to_owned();
            text.push(sign);
            text.append(text_of(zone).as_str());
            text.append("' not supported; convert to UTC first");
            proof {
                assert(text@ =~= "non-UTC timezone offset '"@ + seq![sign] + zone@
                    + "' not supported; convert to UTC first"@);
            }
            return Err(text);
        }
        return Ok(pos + 6);
    }
    Ok(pos)
}

fn read_clock(s: &[char]) -> (r: Result<i64, String>)
    requires
        s@.len() >= 19,
    ensures
        match r {
            Ok(secs) => clock_at(s@) == Ok::<int, Seq<char>>(secs as int) && -1_000_000_000_000
                < secs < 1_000_000_000_000,
            Err(e) => clock_at(s@) == Err::<int, Seq<char>>(e@),
        },
{
    let year: i32 = match part(s, 0, 4) {
        Some(v) => v,
        None => return Err("invalid year".to_owned()),
    };
    let month: i32 = match part(s, 5, 7) {
        Some(v) => v,
        None => return Err("invalid month".to_owned()),
    };
    let day: i32 = match part(s, 8, 10) {
        Some(v) => v,
        None => return Err("invalid day".to_owned()),
    };
    let hour: i32 = match part(s, 11, 13) {
        Some(v) => v,
        None => return Err("invalid hour".to_owned()),
    };
    let min: i32 = match part(s, 14, 16) {
        Some(v) => v,
        None => return Err("invalid minute".to_owned()),
    };
    let sec: i32 = match part(s, 17, 19) {
        Some(v) => v,
        None => return Err("invalid second".to_owned()),
    };
    if month < 1 || month > 12 || day < 1 || day > 31 || hour > 23 || min > 59 || sec > 59 {
        return Err("invalid DateTime string".to_owned());
    }
    let days: i64 = civil_days_from_epoch(year, month as u32, day as u32);
    proof {
        lemma_year_bounds(year as int);
        lemma_month_bounds(year as int, month as int);
    }
    Ok(days * 86_400 + hour as i64 * 3_600 + min as i64 * 60 + sec as i64)
}

pub proof fn lemma_year_bounds(y: int)
    ensures
        y >= 1970 ==> 0 <= year_start(y) <= 366 * (y - 1970),
        y <= 1970 ==> -366 * (1970 - y) <= year_start(y) <= 0,
    decreases
        (if y >= 1970 {
            y - 1970
        } else {
            1970 - y
        }),
{
    if y > 1970 {
        lemma_year_bounds(y - 1);
    } else if y < 1970 {
        lemma_year_bounds(y + 1);
    }
}

pub proof fn lemma_month_bounds(y: int, m: int)
    requires
        1 <= m <= 12,
    ensures
        0 <= month_start(y, m) <= 366,
{
    reveal_with_fuel(month_start, 13);
}

/// Parse `YYYY-MM-DD[ T]HH:MM:SS[.frac][Z|+00:00]` into `(unix_seconds,
/// fractional_nanoseconds)`. UTC only; non-zero offsets are rejected.
fn parse_datetime(s: &[char]) -> (r: Result<(i64, u32), String>)
    ensures
        match r {
            Ok((secs, nanos)) => datetime_of(s@) == Ok::<(int, nat), Seq<char>>(
                (secs as int, nanos as nat),
            ) && -1_000_000_000_000 < secs < 1_000_000_000_000 && nanos < 1_000_000_000,
            Err(e) => datetime_of(s@) == Err::<(int, nat), Seq<char>>(e@),
        },
{
    if s.len() < 19 || s[4] != '-' || s[7] != '-' || (s[10] != ' ' && s[10] != 'T') || s[13] != ':'
        || s[16] != ':' {
        return Err("invalid DateTime string".to_owned());
    }
    let (nanos, pos) = match read_fraction(s) {
        Ok(x) => x,
        Err(e) => return Err(e),
    };
    let end: usize = match read_zone(s, pos) {
        Ok(x) => x,
        Err(e) => return Err(e),
    };
    if end != s.len() {
        return Err("invalid DateTime string".to_owned());
    }
    match read_clock(s) {
        Ok(secs) => Ok((secs, nanos)),
        Err(e) => Err(e),
    }
}

/// Parse `YYYY-MM-DD[ T]HH:MM:SS[.frac][Z|+00:00]` into `(unix_seconds,
/// fractional_nanoseconds)`.
pub fn parse_datetime_str(s: &str) -> (r: Result<(i64, u32), String>)
    ensures
        match r {
            Ok((secs, nanos)) => datetime_of(octet_chars(s@)) == Ok::<(int, nat), Seq<char>>(
                (secs as int, nanos as nat),
            ),
            Err(e) => datetime_of(octet_chars(s@)) == Err::<(int, nat), Seq<char>>(e@),
        },
{
    let chars = chars_of(s);
    let bytes = octets(chars.as_slice());
    parse_datetime(bytes.as_slice())
}

// ---------------------------------------------------------------------------
// Values
// ---------------------------------------------------------------------------

/// The 64-bit integer that a JSON number is, or is cut down to.
pub open spec fn whole(n: NumberView) -> Option<int> {
    match n.signed {
        Some(v) => Some(v as int),
        None => match n.float {
            Some(f) if f.within_i64() => Some(f.signed as int),
            _ => None,
        },
    }
}

fn whole_number(n: &Number) -> (out: Option<i64>)
    ensures
        match out {
            Some(v) => whole(n@) == Some(v as int),
            None => whole(n@) is None,
        },
{
    match n.signed {
        Some(v) => Some(v),
        None => match n.float {
            Some(f) if f.fits_i64() => Some(f.signed),
            _ => None,
        },
    }
}

/// The `i64` that a text spells.
pub open spec fn spelled_i64(s: Seq<char>) -> Option<int> {
    parse_within(s, true, i64::MIN as int, i64::MAX as int)
}

/// The `i64` that a text spells.
pub fn parse_i64(s: &[char]) -> (out: Option<i64>)
    ensures
        match out {
            Some(v) => spelled_i64(s@) == Some(v as int),
            None => spelled_i64(s@) is None,
        },
{
    match parse_signed(s, i64::MIN as i128, i64::MAX as i128) {
        Some(v) => Some(v as i64),
        None => None,
    }
}

/// A numeric epoch value in whole seconds: milli-, micro- and nanoseconds are
/// told apart by magnitude.
pub open spec fn epoch_seconds(ts: int) -> int {
    if ts > 1_000_000_000_000_000_000 {
        ts / 1_000_000_000
    } else if ts > 1_000_000_000_000_000 {
        ts / 1_000_000
    } else if ts > 1_000_000_000_000 {
        ts / 1_000
    } else {
        ts
    }
}

/// Scale a numeric epoch value down to whole seconds, detecting ms/us/ns by
/// magnitude.
pub fn epoch_to_seconds(ts: i64) -> (secs: i64)
    ensures
        secs == epoch_seconds(ts as int),
{
    if ts > 1_000_000_000_000_000_000 {
        ts / 1_000_000_000
    } else if ts > 1_000_000_000_000_000 {
        ts / 1_000_000
    } else if ts > 1_000_000_000_000 {
        ts / 1_000
    } else {
        ts
    }
}

/// The epoch seconds of a text: a number, a date, which stands for its first
/// second, or a datetime.
pub open spec fn seconds_of_text(t: Seq<char>, col: Seq<char>) -> Result<int, DynamicErrorView> {
    match spelled_i64(t) {
        Some(raw) => Ok(epoch_seconds(raw)),
        None => if is_date(octet_chars(t)) {
            match date_of(octet_chars(t), col) {
                Ok(days) => Ok(days * 86_400),
                Err(_) => Err(refusal(col, bad_datetime())),
            }
        } else {
            match datetime_of(octet_chars(t)) {
                Ok((secs, _)) => Ok(secs),
                Err(m) => Err(refusal(col, m)),
            }
        },
    }
}

/// The epoch seconds of a value.
pub open spec fn seconds_of(v: Json, col: Seq<char>) -> Result<int, DynamicErrorView> {
    match v {
        Json::Number(n) => match whole(n) {
            Some(raw) => Ok(epoch_seconds(raw)),
            None => Err(refusal(col, "invalid epoch number"@)),
        },
        Json::String(s) => seconds_of_text(trim(s, Strip::White), col),
        _ => Err(refusal(col, "expected datetime string or epoch number"@)),
    }
}

fn text_to_seconds(t: &[char], col: &str) -> (r: Result<i64, DynamicError>)
    ensures
        match r {
            Ok(v) => seconds_of_text(t@, col@) == Ok::<int, DynamicErrorView>(v as int),
            Err(e) => seconds_of_text(t@, col@) == Err::<int, DynamicErrorView>(e@),
        },
{
    if let Some(raw) = parse_i64(t) {
        return Ok(epoch_to_seconds(raw));
    }
    let bytes = octets(t);
    if bytes.len() == 10 && bytes[4] == '-' && bytes[7] == '-' {
        return match read_date(bytes.as_slice(), col) {
            Ok(days) => Ok(days as i64 * 86_400),
            Err(_) => Err(enc_err(col, "invalid DateTime string")),
        };
    }
    match parse_datetime(bytes.as_slice()) {
        Ok((secs, _)) => Ok(secs),
        Err(m) => Err(enc_err(col, m.as_str())),
    }
}

/// Resolve a JSON value to whole epoch seconds (UTC). Accepts a date/datetime
/// string, a numeric-string epoch, or a number (with magnitude detection).
pub fn to_epoch_seconds(value: &Value, col: &str) -> (r: Result<i64, DynamicError>)
    ensures
        match r {
            Ok(v) => seconds_of(value@, col@) == Ok::<int, DynamicErrorView>(v as int),
            Err(e) => seconds_of(value@, col@) == Err::<int, DynamicErrorView>(e@),
        },
{
    match value {
        Value::Number(n) => match whole_number(n) {
            Some(raw) => Ok(epoch_to_seconds(raw)),
            None => Err(enc_err(col, "invalid epoch number")),
        },
        Value::String(s) => {
            let chars = chars_of(s.as_str());
            text_to_seconds(trimmed(chars.as_slice(), Strip::White), col)
        },
        _ => Err(enc_err(col, "expected datetime string or epoch number")),
    }
}

/// The days since 1970-01-01 of a date `YYYY-MM-DD`.
pub open spec fn date_of(s: Seq<char>, col: Seq<char>) -> Result<int, DynamicErrorView> {
    match field(s.subrange(0, 4)) {
        None => Err(refusal(col, "invalid Date year"@)),
        Some(year) => match field(s.subrange(5, 7)) {
            None => Err(refusal(col, "invalid Date month"@)),
            Some(month) => match field(s.subrange(8, 10)) {
                None => Err(refusal(col, "invalid Date day"@)),
                Some(day) => if 1 <= month <= 12 && 1 <= day <= 31 {
                    Ok(civil_days(year, month, day))
                } else {
                    Err(refusal(col, "invalid Date components"@))
                },
            },
        },
    }
}

/// Whether a text has the shape of a date without a time.
pub open spec fn is_date(s: Seq<char>) -> bool {
    s.len() == 10 && s[4] == '-' && s[7] == '-'
}

/// The whole days of epoch seconds.
pub open spec fn days_of_seconds(secs: Result<int, DynamicErrorView>, col: Seq<char>) -> Result<
    int,
    DynamicErrorView,
> {
    match secs {
        Ok(s) => if i32::MIN <= s / 86_400 <= i32::MAX {
            Ok(s / 86_400)
        } else {
            Err(refusal(col, "Date out of range"@))
        },
        Err(e) => Err(e),
    }
}

/// The days since 1970-01-01 of a value.
pub open spec fn days_of(v: Json, col: Seq<char>) -> Result<int, DynamicErrorView> {
    match v {
        Json::String(s) if is_date(octet_chars(trim(s, Strip::White))) => date_of(
            octet_chars(trim(s, Strip::White)),
            col,
        ),
        _ => days_of_seconds(seconds_of(v, col), col),
    }
}

fn read_date(s: &[char], col: &str) -> (r: Result<i32, DynamicError>)
    requires
        is_date(s@),
    ensures
        match r {
            Ok(v) => date_of(s@, col@) == Ok::<int, DynamicErrorView>(v as int),
            Err(e) => date_of(s@, col@) == Err::<int, DynamicErrorView>(e@),
        },
{
    let year: i32 = match part(s, 0, 4) {
        Some(v) => v,
        None => return Err(enc_err(col, "invalid Date year")),
    };
    let month: i32 = match part(s, 5, 7) {
        Some(v) => v,
        None => return Err(enc_err(col, "invalid Date month")),
    };
    let day: i32 = match part(s, 8, 10) {
        Some(v) => v,
        None => return Err(enc_err(col, "invalid Date day")),
    };
    if month < 1 || month > 12 || day < 1 || day > 31 {
        return Err(enc_err(col, "invalid Date components"));
    }
    let days: i64 = civil_days_from_epoch(year, month as u32, day as u32);
    proof {
        lemma_year_bounds(year as int);
        lemma_month_bounds(year as int, month as int);
    }
    Ok(days as i32)
}

/// Resolve a JSON value to days since 1970-01-01 (UTC). Accepts a date string,
/// a numeric-string epoch, or a number (with magnitude detection).
pub fn to_epoch_days(value: &Value, col: &str) -> (r: Result<i32, DynamicError>)
    ensures
        match r {
            Ok(v) => days_of(value@, col@) == Ok::<int, DynamicErrorView>(v as int),
            Err(e) => days_of(value@, col@) == Err::<int, DynamicErrorView>(e@),
        },
{
    // A bare "YYYY-MM-DD" has no time component; parse it directly.
    if let Value::String(s) = value {
        let chars = chars_of(s.as_str());
        let bytes = octets(trimmed(chars.as_slice(), Strip::White));
        if bytes.len() == 10 && bytes[4] == '-' && bytes[7] == '-' {
            return read_date(bytes.as_slice(), col);
        }
    }
    let secs: i64 = to_epoch_seconds(value, col)?;
    let (days, _) = floor_parts(secs, 86_400);
    if days < i32::MIN as i64 || days > i32::MAX as i64 {
        return Err(enc_err(col, "Date out of range"));
    }
    Ok(days as i32)
}

/// Seconds and nanoseconds as ticks of ten to the minus `precision` seconds.
pub open spec fn ticks(secs: int, nanos: nat, precision: u8, col: Seq<char>) -> Result<
    int,
    DynamicErrorView,
> {
    let base = secs * pow10(precision as nat);
    let frac = nanos as int / pow10(
        if precision < 9 {
            (9 - precision) as nat
        } else {
            0
        },
    ) as int;
    if precision <= 18 && i64::MIN <= base <= i64::MAX && i64::MIN <= base + frac <= i64::MAX {
        Ok(base + frac)
    } else {
        Err(refusal(col, "DateTime64 epoch overflow"@))
    }
}

/// The `DateTime64` ticks of a value.
pub open spec fn ticks_of(v: Json, precision: u8, col: Seq<char>) -> Result<int, DynamicErrorView> {
    match v {
        Json::Number(n) => match whole(n) {
            Some(raw) => Ok(raw),
            None => Err(refusal(col, "invalid DateTime64 number"@)),
        },
        Json::String(s) => {
            let t = trim(s, Strip::White);
            match spelled_i64(t) {
                Some(raw) => Ok(raw),
                None => match datetime_of(octet_chars(t)) {
                    Ok((secs, nanos)) => ticks(secs, nanos, precision, col),
                    Err(m) => Err(refusal(col, m)),
                },
            }
        },
        _ => Err(refusal(col, "expected number or datetime string"@)),
    }
}

fn count_ticks(secs: i64, nanos: u32, precision: u8, col: &str) -> (r: Result<i64, DynamicError>)
    ensures
        match r {
            Ok(v) => ticks(secs as int, nanos as nat, precision, col@) == Ok::<
                int,
                DynamicErrorView,
            >(v as int),
            Err(e) => ticks(secs as int, nanos as nat, precision, col@) == Err::<
                int,
                DynamicErrorView,
            >(e@),
        },
{
    if precision > 18 {
        return Err(enc_err(col, "DateTime64 epoch overflow"));
    }
    let base: i64 = match secs.checked_mul(ten_to(precision as u32)) {
        Some(v) => v,
        None => return Err(enc_err(col, "DateTime64 epoch overflow")),
    };
    let rest: u32 = if precision < 9 {
        (9 - precision) as u32
    } else {
        0
    };
    proof {
        lemma_pow10_grows(rest as nat, 9);
    }
    let frac: i64 = nanos as i64 / ten_to(rest);
    match base.checked_add(frac) {
        Some(v) => Ok(v),
        None => Err(enc_err(col, "DateTime64 epoch overflow")),
    }
}

/// Convert a JSON value to `DateTime64` epoch ticks at the given precision. A
/// number, or a string that spells one, is an already-scaled tick count.
pub fn datetime64_to_ticks(value: &Value, precision: u8, col: &str) -> (r: Result<
    i64,
    DynamicError,
>)
    ensures
        match r {
            Ok(v) => ticks_of(value@, precision, col@) == Ok::<int, DynamicErrorView>(v as int),
            Err(e) => ticks_of(value@, precision, col@) == Err::<int, DynamicErrorView>(e@),
        },
{
    match value {
        Value::Number(n) => match whole_number(n) {
            Some(raw) => Ok(raw),
            None => Err(enc_err(col, "invalid DateTime64 number")),
        },
        Value::String(s) => {
            let chars = chars_of(s.as_str());
            let t = trimmed(chars.as_slice(), Strip::White);
            if let Some(raw) = parse_i64(t) {
                return Ok(raw);
            }
            let bytes = octets(t);
            match parse_datetime(bytes.as_slice()) {
                Ok((secs, nanos)) => count_ticks(secs, nanos, precision, col),
                Err(m) => Err(enc_err(col, m.as_str())),
            }
        },
        _ => Err(enc_err(col, "expected number or datetime string")),
    }
}

// ---------------------------------------------------------------------------
// Laws
// ---------------------------------------------------------------------------

/// The calendar has no gaps: behind the last day of a month comes the first of
/// the next, and behind the last day of a year the first of the next.
pub proof fn law_calendar_has_no_gaps(y: int, m: int)
    requires
        1 <= m <= 12,
    ensures
        m < 12 ==> civil_days(y, m + 1, 1) == civil_days(y, m, month_len(y, m)) + 1,
        m == 12 ==> civil_days(y + 1, 1, 1) == civil_days(y, m, month_len(y, m)) + 1,
{
    reveal_with_fuel(month_start, 13);
    if y >= 1970 {
        assert(year_start(y + 1) == year_start(y) + year_len(y));
    } else {
        assert(year_start(y) == year_start(y + 1) - year_len(y));
    }
}

/// The same instant in seconds, milliseconds, microseconds or nanoseconds is
/// taken as the same second, for the instants whose numbers the magnitudes tell
/// apart: those later than 1e9 seconds, up to 1e12.
pub proof fn law_epoch_magnitudes(secs: int, ms: int, us: int, ns: int)
    requires
        1_000_000_000 < secs <= 1_000_000_000_000,
        0 <= ms < 1_000,
        0 <= us < 1_000_000,
        0 <= ns < 1_000_000_000,
        secs * 1_000 + ms <= 1_000_000_000_000_000,
        secs * 1_000_000 + us <= 1_000_000_000_000_000_000,
    ensures
        epoch_seconds(secs) == secs,
        epoch_seconds(secs * 1_000 + ms) == secs,
        epoch_seconds(secs * 1_000_000 + us) == secs,
        epoch_seconds(secs * 1_000_000_000 + ns) == secs,
{
}

proof fn lemma_digit_run_same(s: Seq<char>, t: Seq<char>, pos: nat)
    requires
        s.len() == t.len(),
        forall|i: int| pos <= i < s.len() ==> #[trigger] s[i] == t[i],
    ensures
        digit_run(s, pos) == digit_run(t, pos),
    decreases s.len() - pos,
{
    if pos < s.len() && '0' <= s[pos as int] <= '9' {
        lemma_digit_run_same(s, t, pos + 1);
    }
}

/// A datetime is the same with a `T` between date and time and with a blank.
pub proof fn law_iso_separator(s: Seq<char>)
    requires
        s.len() > 10,
        s[10] == ' ',
    ensures
        datetime_of(s.update(10, 'T')) == datetime_of(s),
{
    let t = s.update(10, 'T');
    if s.len() >= 19 {
        lemma_digit_run_same(s, t, 20);
        if s.len() > 19 {
            lemma_digit_run(s, 20);
        }
        assert(s.subrange(0, 4) =~= t.subrange(0, 4));
        assert(s.subrange(5, 7) =~= t.subrange(5, 7));
        assert(s.subrange(8, 10) =~= t.subrange(8, 10));
        assert(s.subrange(11, 13) =~= t.subrange(11, 13));
        assert(s.subrange(14, 16) =~= t.subrange(14, 16));
        assert(s.subrange(17, 19) =~= t.subrange(17, 19));
        assert(clock_at(s) == clock_at(t));
        if s.len() > 19 && s[19] == '.' {
            let n = digit_run(s, 20);
            if 0 < n < 9 {
                assert(s.subrange(20, 20 + n as int) =~= t.subrange(20, 20 + n as int));
            } else if n >= 9 {
                assert(s.subrange(20, 29) =~= t.subrange(20, 29));
            }
        }
        assert(fraction_at(s) == fraction_at(t));
        if let Ok((_, pos)) = fraction_at(s) {
            assert(19 <= pos);
            let p = pos as int;
            if p + 6 <= s.len() {
                assert(s.subrange(p + 1, p + 6) =~= t.subrange(p + 1, p + 6));
            }
            assert(zone_end(s, p) == zone_end(t, p));
        }
    }
}

} // verus!
