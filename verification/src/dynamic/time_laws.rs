//! What dates, datetimes and epoch numbers stand for.

use vstd::prelude::*;
use vstd::string::*;
use vstd::utf8::{is_ascii_chars, is_ascii_chars_encode_utf8};

use crate::dynamic::error::DynamicErrorView;
use crate::dynamic::time::{
    civil_days, clock_at, date_of, datetime_of, days_of, digit_run, epoch_seconds, is_date,
    is_datetime, lemma_month_bounds, lemma_number_below, lemma_pow10_grows, lemma_pow10_product,
    lemma_year_bounds, month_start, octet_chars, pow10, seconds_of, spelled_i64, ticks, ticks_of,
    year_len, year_start, zone_end,
};
use crate::dynamic::value::{Json, NumberView};
use crate::text::{
    all_digits, decimal, is_white, lemma_decimal_reads, lemma_untrimmed, number, trim, Strip,
};

verus! {

// ---------------------------------------------------------------------------
// The calendar
// ---------------------------------------------------------------------------

/// The calendar is the Gregorian one, counted from 1970-01-01: days of a month
/// follow each other, the months have their lengths, February one day more in
/// every fourth year but for the centuries, of which every fourth keeps it.
pub proof fn law_the_calendar_is_gregorian(y: int, m: int, d: int)
    requires
        1 <= m <= 12,
    ensures
        civil_days(1970, 1, 1) == 0,
        civil_days(y, m, d + 1) == civil_days(y, m, d) + 1,
        m < 12 ==> civil_days(y, m + 1, 1) - civil_days(y, m, 1) == (if m == 2 {
            if y % 400 == 0 || (y % 4 == 0 && y % 100 != 0) {
                29int
            } else {
                28
            }
        } else if m == 4 || m == 6 || m == 9 || m == 11 {
            30
        } else {
            31
        }),
        civil_days(y + 1, 1, 1) - civil_days(y, 12, 1) == 31,
{
    reveal_with_fuel(month_start, 13);
    if y >= 1970 {
        assert(year_start(y + 1) == year_start(y) + year_len(y));
    } else {
        assert(year_start(y) == year_start(y + 1) - year_len(y));
    }
}

// ---------------------------------------------------------------------------
// Numbers
// ---------------------------------------------------------------------------

/// An epoch number is taken in the unit that its magnitude tells, and cut to
/// whole seconds: the second it lies in.
pub proof fn law_epoch_numbers_are_cut_to_seconds(ts: int)
    ensures
        ({
            let s = epoch_seconds(ts);
            &&& ts <= 1_000_000_000_000 ==> s == ts
            &&& 1_000_000_000_000 < ts <= 1_000_000_000_000_000 ==> s * 1_000 <= ts < (s + 1) * 1_000
            &&& 1_000_000_000_000_000 < ts <= 1_000_000_000_000_000_000 ==> s * 1_000_000 <= ts < (s
                + 1) * 1_000_000
            &&& 1_000_000_000_000_000_000 < ts ==> s * 1_000_000_000 <= ts < (s + 1)
                * 1_000_000_000
        }),
{
}

/// A whole number is the epoch number that it is, and a string of its digits
/// means the same: as seconds, as days, and as ticks, where neither is scaled.
pub proof fn law_numbers_and_their_texts_agree(n: NumberView, i: u64, p: u8, col: Seq<char>)
    requires
        i <= i64::MAX,
        n.signed == Some(i as i64),
    ensures
        seconds_of(Json::Number(n), col) == Ok::<int, DynamicErrorView>(epoch_seconds(i as int)),
        seconds_of(Json::String(decimal(i as nat)), col) == seconds_of(Json::Number(n), col),
        days_of(Json::String(decimal(i as nat)), col) == days_of(Json::Number(n), col),
        ticks_of(Json::Number(n), p, col) == Ok::<int, DynamicErrorView>(i as int),
        ticks_of(Json::String(decimal(i as nat)), p, col) == Ok::<int, DynamicErrorView>(i as int),
{
    let d = decimal(i as nat);
    lemma_decimal_reads(i as nat);
    assert('0' <= d[0] <= '9');
    assert('0' <= d[d.len() - 1] <= '9');
    lemma_untrimmed(d);
    assert(spelled_i64(d) == Some(i as int));
    assert(is_ascii_chars(d)) by {
        assert forall|k: int| 0 <= k < d.len() implies '\0' <= #[trigger] d[k] <= '\u{7f}' by {
            assert('0' <= d[k] <= '9');
        }
    }
    lemma_ascii_octets(d);
    if d.len() == 10 {
        assert('0' <= d[4] <= '9');
    }
}

// ---------------------------------------------------------------------------
// Days
// ---------------------------------------------------------------------------

/// ASCII stands for itself.
proof fn lemma_ascii_octets(s: Seq<char>)
    requires
        is_ascii_chars(s),
    ensures
        octet_chars(s) == s,
{
    is_ascii_chars_encode_utf8(s);
    assert forall|i: int| 0 <= i < s.len() implies #[trigger] octet_chars(s)[i] == s[i] by {
        assert(s[i] as u8 == vstd::utf8::encode_utf8(s)[i]);
        assert((s[i] as nat) < 128);
    }
    assert(octet_chars(s) =~= s);
}

/// A date is no number.
proof fn lemma_date_is_no_number(t: Seq<char>)
    requires
        is_date(octet_chars(t)),
    ensures
        spelled_i64(t) is None,
{
    if spelled_i64(t) is Some {
        let plus = t.len() > 0 && (t[0] == '+' || t[0] == '-');
        let body = if plus {
            t.skip(1)
        } else {
            t
        };
        assert(all_digits(body));
        assert forall|i: int| 0 <= i < t.len() implies '\0' <= #[trigger] t[i] <= '\u{7f}' by {
            if !plus {
                assert('0' <= body[i] <= '9');
            } else if i > 0 {
                assert(body[i - 1] == t[i]);
                assert('0' <= body[i - 1] <= '9');
            }
        }
        assert(is_ascii_chars(t));
        lemma_ascii_octets(t);
        assert(t[4] == '-');
        if plus {
            assert(body[3] == t[4]);
            assert('0' <= body[3] <= '9');
        } else {
            assert('0' <= body[4] <= '9');
        }
    }
}

/// The day of a value is the one that its second lies in: `d` days from the
/// epoch begin at `d * 86400` seconds and end before the next. It is refused
/// only where the second is, or the day is no 32-bit number.
pub proof fn law_the_day_holds_the_second(v: Json, col: Seq<char>)
    ensures
        days_of(v, col) matches Ok(d) ==> seconds_of(v, col) matches Ok(s) && d * 86_400 <= s < (d
            + 1) * 86_400,
        seconds_of(v, col) matches Ok(s) ==> i32::MIN * 86_400 <= s < (i32::MAX + 1) * 86_400
            ==> days_of(v, col) is Ok,
{
    if let Json::String(s) = v {
        let t = trim(s, Strip::White);
        if is_date(octet_chars(t)) {
            lemma_date_is_no_number(t);
        }
    }
}

/// The seconds of a date are those of its first second.
pub proof fn law_a_date_is_its_first_second(v: Json, s: Seq<char>, col: Seq<char>)
    requires
        v == Json::String(s),
        is_date(octet_chars(trim(s, Strip::White))),
    ensures
        days_of(v, col) matches Ok(d) ==> seconds_of(v, col) == Ok::<int, DynamicErrorView>(
            d * 86_400,
        ),
{
    lemma_date_is_no_number(trim(s, Strip::White));
}

/// A date is the calendar day that its digits name, and accepted exactly where
/// they are digits, the month is one of twelve and the day one of thirty-one.
pub proof fn law_a_date_is_its_calendar_day(s: Seq<char>, col: Seq<char>)
    requires
        s.len() == 10,
    ensures
        date_of(s, col) is Ok <==> {
            &&& all_digits(s.subrange(0, 4))
            &&& all_digits(s.subrange(5, 7))
            &&& all_digits(s.subrange(8, 10))
            &&& 1 <= number(s.subrange(5, 7)) <= 12
            &&& 1 <= number(s.subrange(8, 10)) <= 31
        },
        date_of(s, col) matches Ok(d) ==> d == civil_days(
            number(s.subrange(0, 4)) as int,
            number(s.subrange(5, 7)) as int,
            number(s.subrange(8, 10)) as int,
        ),
{
}

/// A datetime is the day that its first ten characters name and the time of day
/// that its clock shows: hours below 24, minutes and seconds below 60.
pub proof fn law_a_datetime_is_a_day_and_a_clock(s: Seq<char>, col: Seq<char>)
    requires
        s.len() >= 19,
    ensures
        datetime_of(s) matches Ok((secs, nanos)) ==> {
            let h = number(s.subrange(11, 13)) as int;
            let m = number(s.subrange(14, 16)) as int;
            let sec = number(s.subrange(17, 19)) as int;
            &&& is_date(s.take(10))
            &&& date_of(s.take(10), col) matches Ok(d) && secs == d * 86_400 + h * 3_600 + m * 60
                + sec
            &&& h < 24 && m < 60 && sec < 60
            &&& s[13] == ':' && s[16] == ':' && (s[10] == ' ' || s[10] == 'T')
        },
{
    let t = s.take(10);
    assert(t.subrange(0, 4) =~= s.subrange(0, 4));
    assert(t.subrange(5, 7) =~= s.subrange(5, 7));
    assert(t.subrange(8, 10) =~= s.subrange(8, 10));
}

/// A datetime of nineteen characters is accepted exactly where its date is one,
/// its separators are in their places, and its clock is a time of day; it has
/// no fraction.
pub proof fn law_which_datetimes_are_accepted(s: Seq<char>, col: Seq<char>)
    requires
        s.len() == 19,
    ensures
        datetime_of(s) is Ok <==> {
            &&& is_date(s.take(10)) && date_of(s.take(10), col) is Ok
            &&& s[10] == ' ' || s[10] == 'T'
            &&& s[13] == ':' && s[16] == ':'
            &&& all_digits(s.subrange(11, 13)) && number(s.subrange(11, 13)) < 24
            &&& all_digits(s.subrange(14, 16)) && number(s.subrange(14, 16)) < 60
            &&& all_digits(s.subrange(17, 19)) && number(s.subrange(17, 19)) < 60
        },
        datetime_of(s) matches Ok((_, nanos)) ==> nanos == 0,
{
    let t = s.take(10);
    assert(t.subrange(0, 4) =~= s.subrange(0, 4));
    assert(t.subrange(5, 7) =~= s.subrange(5, 7));
    assert(t.subrange(8, 10) =~= s.subrange(8, 10));
}

proof fn lemma_datetime_is_no_number(s: Seq<char>)
    requires
        s.len() >= 19,
        s[4] == '-',
    ensures
        spelled_i64(s) is None,
{
    if spelled_i64(s) is Some {
        let plus = s[0] == '+' || s[0] == '-';
        let body = if plus {
            s.skip(1)
        } else {
            s
        };
        if plus {
            assert(body[3] == s[4]);
            assert('0' <= body[3] <= '9');
        } else {
            assert('0' <= body[4] <= '9');
        }
    }
}

/// The day of a datetime is the day of its date: the `Date` of a datetime
/// string is that of its first ten characters.
pub proof fn law_the_day_of_a_datetime_is_its_date(s: Seq<char>, col: Seq<char>)
    requires
        s.len() >= 19,
        is_ascii_chars(s),
        !is_white(s[0]),
        !is_white(s.last()),
        !is_white(s[9]),
        datetime_of(s) is Ok,
    ensures
        days_of(Json::String(s), col) is Ok,
        days_of(Json::String(s), col) == days_of(Json::String(s.take(10)), col),
{
    let t = s.take(10);
    lemma_untrimmed(s);
    assert(t[0] == s[0]);
    assert(t.last() == s[9]);
    lemma_untrimmed(t);
    lemma_ascii_octets(s);
    assert(is_ascii_chars(t)) by {
        assert forall|i: int| 0 <= i < t.len() implies '\0' <= #[trigger] t[i] <= '\u{7f}' by {
            assert(t[i] == s[i]);
            assert((s[i] as nat) < 128);
        }
    }
    lemma_ascii_octets(t);
    law_a_datetime_is_a_day_and_a_clock(s, col);
    lemma_datetime_is_no_number(s);
    let d = date_of(t, col)->Ok_0;
    lemma_day_bounds(t, col);
    let secs = datetime_of(s)->Ok_0.0;
    assert(secs / 86_400 == d);
}

/// A date of four digits for the year lies within 32 bits of days.
pub proof fn lemma_day_bounds(s: Seq<char>, col: Seq<char>)
    requires
        s.len() == 10,
    ensures
        date_of(s, col) matches Ok(d) ==> i32::MIN < d < i32::MAX,
{
    if date_of(s, col) is Ok {
        let y = s.subrange(0, 4);
        lemma_number_below(y);
        assert(pow10(4) == 10_000) by {
            reveal_with_fuel(pow10, 5);
        }
        lemma_year_bounds(number(y) as int);
        lemma_month_bounds(
            number(y) as int,
            number(s.subrange(5, 7)) as int,
        );
    }
}

// ---------------------------------------------------------------------------
// Fractions and zones
// ---------------------------------------------------------------------------

/// The digits behind a point run to the end.
proof fn lemma_run(s: Seq<char>, pos: nat, end: nat)
    requires
        pos <= end <= s.len(),
        forall|i: int| pos <= i < end ==> '0' <= #[trigger] s[i] <= '9',
        end < s.len() ==> !('0' <= s[end as int] <= '9'),
    ensures
        digit_run(s, pos) == end - pos,
    decreases end - pos,
{
    if pos < end {
        assert('0' <= s[pos as int] <= '9');
        lemma_run(s, pos + 1, end);
    }
}

proof fn lemma_same_clock(s: Seq<char>, t: Seq<char>)
    requires
        s.len() >= 19,
        t.len() >= 19,
        s.take(19) == t.take(19),
    ensures
        clock_at(s) == clock_at(t),
        is_datetime(s) == is_datetime(t),
{
    assert forall|i: int| 0 <= i < 19 implies s[i] == t[i] by {
        assert(s.take(19)[i] == s[i]);
        assert(t.take(19)[i] == t[i]);
    }
    assert(s.subrange(0, 4) =~= t.subrange(0, 4));
    assert(s.subrange(5, 7) =~= t.subrange(5, 7));
    assert(s.subrange(8, 10) =~= t.subrange(8, 10));
    assert(s.subrange(11, 13) =~= t.subrange(11, 13));
    assert(s.subrange(14, 16) =~= t.subrange(14, 16));
    assert(s.subrange(17, 19) =~= t.subrange(17, 19));
}

/// A fraction leaves the second as it is, and is the decimal fraction that its
/// digits spell, in nanoseconds; digits past the ninth are dropped.
pub proof fn law_a_fraction_is_a_decimal_fraction(s: Seq<char>, digits: Seq<char>)
    requires
        s.len() == 19,
        digits.len() > 0,
        all_digits(digits),
    ensures
        match datetime_of(s) {
            Ok((secs, _)) => datetime_of(s + seq!['.'] + digits) matches Ok((t, nanos)) && t == secs
                && if digits.len() <= 9 {
                nanos * pow10(digits.len()) == number(digits) * pow10(9)
            } else {
                nanos == number(digits.take(9))
            },
            Err(e) => datetime_of(s + seq!['.'] + digits) is Err,
        },
{
    let t = s + seq!['.'] + digits;
    let n = digits.len();
    assert(t[19] == '.');
    assert forall|i: int| 20 <= i < t.len() implies '0' <= #[trigger] t[i] <= '9' by {
        assert(t[i] == digits[i - 20]);
    }
    lemma_run(t, 20, t.len());
    assert(t.take(19) =~= s.take(19));
    lemma_same_clock(t, s);
    if n < 9 {
        assert(t.subrange(20, 20 + n as int) =~= digits);
        lemma_pow10_product((9 - n) as nat, n);
        let k = number(digits);
        assert(k * pow10((9 - n) as nat) * pow10(n) == k * (pow10((9 - n) as nat) * pow10(n)))
            by (nonlinear_arith);
    } else {
        assert(t.subrange(20, 29) =~= digits.take(9));
        if n == 9 {
            assert(digits.take(9) =~= digits);
        }
    }
    assert(zone_end(t, t.len() as int) == Ok::<int, Seq<char>>(t.len() as int));
}

/// `Z` and `+00:00` mean what no zone means.
pub proof fn law_zero_offsets_mean_nothing(s: Seq<char>)
    requires
        s.len() == 19,
    ensures
        datetime_of(s + seq!['Z']) == datetime_of(s),
        datetime_of(s + seq!['+', '0', '0', ':', '0', '0']) == datetime_of(s),
{
    reveal_strlit("00:00");
    let z = s + seq!['Z'];
    let o = s + seq!['+', '0', '0', ':', '0', '0'];
    assert(z.take(19) =~= s.take(19));
    assert(o.take(19) =~= s.take(19));
    lemma_same_clock(z, s);
    lemma_same_clock(o, s);
    assert(z[19] == 'Z');
    assert(o[19] == '+');
    assert(o.subrange(20, 25) =~= "00:00"@);
}

/// Any other offset is refused.
pub proof fn law_other_offsets_are_refused(
    s: Seq<char>,
    sign: char,
    a: char,
    b: char,
    c: char,
    d: char,
)
    requires
        s.len() == 19,
        sign == '+' || sign == '-',
        '0' <= a <= '9' && '0' <= b <= '9' && '0' <= c <= '9' && '0' <= d <= '9',
        sign == '-' || a != '0' || b != '0' || c != '0' || d != '0',
    ensures
        datetime_of(s + seq![sign, a, b, ':', c, d]) is Err,
{
    reveal_strlit("00:00");
    let t = s + seq![sign, a, b, ':', c, d];
    assert(t[19] == sign && t[20] == a && t[21] == b && t[22] == ':' && t[23] == c && t[24] == d);
    let zone = t.subrange(20, 25);
    assert(zone[0] == a && zone[1] == b && zone[3] == c && zone[4] == d);
    assert("00:00"@[0] == '0' && "00:00"@[1] == '0' && "00:00"@[3] == '0' && "00:00"@[4] == '0');
}

// ---------------------------------------------------------------------------
// Ticks
// ---------------------------------------------------------------------------

/// Ticks count the time in units of ten to the minus `p` seconds, cut down: the
/// tick holds the instant. Where they are refused, no 64-bit tick does.
pub proof fn law_the_tick_holds_the_instant(secs: int, nanos: nat, p: u8, col: Seq<char>)
    requires
        p <= 9,
        nanos < 1_000_000_000,
    ensures
        ticks(secs, nanos, p, col) matches Ok(t) ==> {
            let unit = pow10((9 - p) as nat) as int;
            t * unit <= secs * 1_000_000_000 + nanos < (t + 1) * unit
        },
        ticks(secs, nanos, p, col) is Err ==> secs * pow10(p as nat) + nanos as int / pow10(
            (9 - p) as nat,
        ) as int > i64::MAX || secs * pow10(p as nat) < i64::MIN,
{
    let unit = pow10((9 - p) as nat) as int;
    let scale = pow10(p as nat) as int;
    lemma_pow10_grows((9 - p) as nat, 9);
    lemma_pow10_product(p as nat, (9 - p) as nat);
    assert(pow10(9) == 1_000_000_000) by {
        reveal_with_fuel(pow10, 10);
    }
    let frac = nanos as int / unit;
    vstd::arithmetic::div_mod::lemma_fundamental_div_mod(nanos as int, unit);
    let rest = nanos as int % unit;
    assert(0 <= rest < unit);
    assert(secs * scale * unit == secs * 1_000_000_000) by (nonlinear_arith)
        requires
            scale * unit == 1_000_000_000,
    ;
    assert((secs * scale + frac) * unit == secs * scale * unit + frac * unit) by (nonlinear_arith);
    assert((secs * scale + frac + 1) * unit == (secs * scale + frac) * unit + unit)
        by (nonlinear_arith);
    assert(unit * frac == frac * unit) by (nonlinear_arith);
    assert(frac >= 0) by (nonlinear_arith)
        requires
            unit * frac + rest == nanos,
            rest < unit,
            nanos >= 0,
            unit > 0,
    ;
}

/// The ticks of a datetime string are those of its second and its fraction.
pub proof fn law_ticks_of_a_datetime(s: Seq<char>, p: u8, col: Seq<char>)
    requires
        s.len() >= 19,
        is_ascii_chars(s),
        !is_white(s[0]),
        !is_white(s.last()),
        datetime_of(s) is Ok,
    ensures
        ticks_of(Json::String(s), p, col) == ticks(
            datetime_of(s)->Ok_0.0,
            datetime_of(s)->Ok_0.1,
            p,
            col,
        ),
        seconds_of(Json::String(s), col) == Ok::<int, DynamicErrorView>(datetime_of(s)->Ok_0.0),
{
    lemma_untrimmed(s);
    lemma_ascii_octets(s);
    lemma_datetime_is_no_number(s);
}

} // verus!
