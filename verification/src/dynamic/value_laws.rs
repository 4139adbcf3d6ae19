//! What values of JSON mean to scalar columns.

use vstd::prelude::*;
use vstd::string::*;

use crate::dynamic::answers::{entry_of, product_of, Float};
use crate::dynamic::encode::integer_range;
use crate::dynamic::error::DynamicErrorView;
use crate::dynamic::parsed_type::TypeTag;
use crate::dynamic::scalars::{
    bool_of, enum_of, enum_value, label_of, lowered, member_value, next_bare, signed_of,
    unsigned_of, wide_signed_of, wide_unsigned_of,
};
use crate::dynamic::time::spelled_i64;
use crate::dynamic::value::{plain_text, Json, NumberView};
use crate::native::io::{lemma_pow256, pow256};
use crate::text::{
    decimal, law_last_place, law_next_place, lemma_decimal_reads, parse_integer, trim, trim_end,
    trim_start, Strip,
};

verus! {

// ---------------------------------------------------------------------------
// Texts
// ---------------------------------------------------------------------------

/// Whether all of `s` is stripped.
pub open spec fn all_stripped(s: Seq<char>, what: Strip) -> bool {
    forall|i: int| 0 <= i < s.len() ==> what.strips(#[trigger] s[i])
}

proof fn lemma_front_stripped(a: Seq<char>, s: Seq<char>, what: Strip)
    requires
        all_stripped(a, what),
    ensures
        trim_start(a + s, what) == trim_start(s, what),
    decreases a.len(),
{
    if a.len() > 0 {
        let rest = a.drop_first();
        assert forall|i: int| 0 <= i < rest.len() implies what.strips(#[trigger] rest[i]) by {
            assert(rest[i] == a[i + 1]);
        }
        lemma_front_stripped(rest, s, what);
        assert((a + s).drop_first() =~= rest + s);
        assert((a + s)[0] == a[0]);
    } else {
        assert(a + s =~= s);
    }
}

pub proof fn lemma_back_stripped(s: Seq<char>, b: Seq<char>, what: Strip)
    requires
        all_stripped(b, what),
    ensures
        trim_end(s + b, what) == trim_end(s, what),
    decreases b.len(),
{
    if b.len() > 0 {
        let rest = b.drop_last();
        assert forall|i: int| 0 <= i < rest.len() implies what.strips(#[trigger] rest[i]) by {
            assert(rest[i] == b[i]);
        }
        lemma_back_stripped(s, rest, what);
        assert((s + b).drop_last() =~= s + rest);
        assert((s + b).last() == b[b.len() - 1]);
    } else {
        assert(s + b =~= s);
    }
}

/// Stripped characters around a text that neither begins nor ends with one are
/// taken away.
pub proof fn lemma_core(a: Seq<char>, core: Seq<char>, b: Seq<char>, what: Strip)
    requires
        all_stripped(a, what),
        all_stripped(b, what),
        core.len() > 0 ==> !what.strips(core[0]) && !what.strips(core.last()),
    ensures
        trim(a + core + b, what) == core,
{
    assert(a + core + b =~= a + (core + b));
    lemma_front_stripped(a, core + b, what);
    if core.len() > 0 {
        assert((core + b)[0] == core[0]);
        assert(trim_start(core + b, what) == core + b);
        lemma_back_stripped(core, b, what);
        assert(trim_end(core, what) == core);
    } else {
        assert(core + b =~= b);
        assert(b + seq![] =~= b);
        lemma_front_stripped(b, seq![], what);
        assert(trim_start(Seq::<char>::empty(), what) =~= seq![]);
        assert(trim_end(Seq::<char>::empty(), what) =~= seq![]);
        assert(core =~= seq![]);
    }
}

/// The text of a whole number.
pub open spec fn integer_text(n: int) -> Seq<char> {
    if n < 0 {
        seq!['-'] + decimal((-n) as nat)
    } else {
        decimal(n as nat)
    }
}

pub proof fn lemma_integer_text(n: int)
    ensures
        integer_text(n).len() > 0,
        parse_integer(integer_text(n), true) == Some(n),
        n >= 0 ==> parse_integer(integer_text(n), false) == Some(n),
        n < 0 ==> parse_integer(integer_text(n), false) is None,
        forall|i: int|
            0 <= i < integer_text(n).len() ==> ('0' <= #[trigger] integer_text(n)[i] <= '9' || (i == 0
                && integer_text(n)[i] == '-')),
{
    let s = integer_text(n);
    if n < 0 {
        let d = decimal((-n) as nat);
        lemma_decimal_reads((-n) as nat);
        assert(s.skip(1) =~= d);
        assert(s[0] == '-');
        assert forall|i: int| 0 < i < s.len() implies '0' <= #[trigger] s[i] <= '9' by {
            assert(s[i] == d[i - 1]);
        }
    } else {
        lemma_decimal_reads(n as nat);
        assert('0' <= s[0] <= '9');
    }
}

/// A string that spells a whole number, blanks around it aside, is that number,
/// where the integer can hold it, and is refused elsewhere.
pub proof fn law_number_texts_are_numbers(
    n: int,
    a: Seq<char>,
    b: Seq<char>,
    col: Seq<char>,
)
    requires
        all_stripped(a, Strip::White),
        all_stripped(b, Strip::White),
    ensures
        ({
            let v = Json::String(a + integer_text(n) + b);
            &&& match signed_of(v, col) {
                Ok(i) => i == n && i64::MIN <= n <= i64::MAX,
                Err(_) => !(i64::MIN <= n <= i64::MAX),
            }
            &&& match unsigned_of(v, col) {
                Ok(u) => u == n && 0 <= n <= u64::MAX,
                Err(_) => !(0 <= n <= u64::MAX),
            }
            &&& match wide_signed_of(v, col) {
                Ok(i) => i == n && i128::MIN <= n <= i128::MAX,
                Err(_) => !(i128::MIN <= n <= i128::MAX),
            }
            &&& match wide_unsigned_of(v, col) {
                Ok(u) => u == n && 0 <= n <= u128::MAX,
                Err(_) => !(0 <= n <= u128::MAX),
            }
        }),
{
    let s = integer_text(n);
    lemma_integer_text(n);
    assert('0' <= s[0] <= '9' || s[0] == '-');
    assert('0' <= s[s.len() - 1] <= '9' || s[s.len() - 1] == '-');
    lemma_core(a, s, b, Strip::White);
}

/// A number, a Boolean and nothing else is taken for an integer besides a
/// string, each for what it is.
pub proof fn law_integers_of_numbers(n: NumberView, i: int, yes: bool, col: Seq<char>)
    requires
        i64::MIN <= i <= u64::MAX,
        n.unsigned == (if i >= 0 {
            Some(i as u64)
        } else {
            None
        }),
        n.signed == (if i <= i64::MAX {
            Some(i as i64)
        } else {
            None
        }),
    ensures
        match signed_of(Json::Number(n), col) {
            Ok(x) => x == i && i <= i64::MAX,
            Err(_) => i > i64::MAX,
        },
        match unsigned_of(Json::Number(n), col) {
            Ok(x) => x == i && i >= 0,
            Err(_) => i < 0,
        },
        signed_of(Json::Bool(yes), col) == Ok::<int, DynamicErrorView>(
            if yes {
                1
            } else {
                0
            },
        ),
        unsigned_of(Json::Bool(yes), col) == Ok::<nat, DynamicErrorView>(
            if yes {
                1
            } else {
                0
            },
        ),
        signed_of(Json::Null, col) is Err,
        unsigned_of(Json::Null, col) is Err,
        wide_signed_of(Json::Null, col) is Err,
        wide_unsigned_of(Json::Null, col) is Err,
{
}

/// The range of an integer type is all that its width can tell apart, from zero
/// where it is unsigned, and with as many numbers below zero as not where it is
/// signed.
pub proof fn law_integer_ranges_fill_their_widths(tag: TypeTag)
    ensures
        match integer_range(tag) {
            Some((width, lo, hi)) => {
                &&& hi - lo + 1 == pow256(width)
                &&& lo == 0 || lo == -(hi + 1)
                &&& (tag is UInt8 || tag is UInt16 || tag is UInt32 || tag is UInt64) == (lo == 0)
                &&& (tag is UInt8 || tag is Int8) == (width == 1)
                &&& (tag is UInt16 || tag is Int16) == (width == 2)
                &&& (tag is UInt32 || tag is Int32) == (width == 4)
                &&& (tag is UInt64 || tag is Int64) == (width == 8)
            },
            None => !(tag is UInt8 || tag is UInt16 || tag is UInt32 || tag is UInt64 || tag is Int8
                || tag is Int16 || tag is Int32 || tag is Int64),
        },
{
    lemma_pow256();
}

// ---------------------------------------------------------------------------
// Booleans
// ---------------------------------------------------------------------------

/// A Boolean is what it is, NULL is false, and a whole number is true where it
/// is not zero.
pub proof fn law_plain_booleans(yes: bool, n: NumberView, i: i64, col: Seq<char>)
    requires
        n.signed == Some(i),
    ensures
        bool_of(Json::Bool(yes), col) == Ok::<bool, DynamicErrorView>(yes),
        bool_of(Json::Null, col) == Ok::<bool, DynamicErrorView>(false),
        bool_of(Json::Number(n), col) == Ok::<bool, DynamicErrorView>(i != 0),
{
}

/// The words that stand for a Boolean are known in any case and with blanks
/// around them; every other text is refused.
pub proof fn law_boolean_words(a: Seq<char>, w: Seq<char>, b: Seq<char>, col: Seq<char>)
    requires
        all_stripped(a, Strip::White),
        all_stripped(b, Strip::White),
        w.len() > 0 ==> !Strip::White.strips(w[0]) && !Strip::White.strips(w.last()),
    ensures
        match bool_of(Json::String(a + w + b), col) {
            Ok(true) => lowered(w) == "true"@ || lowered(w) == "yes"@ || lowered(w) == "1"@,
            Ok(false) => lowered(w) == "false"@ || lowered(w) == "no"@ || lowered(w) == "0"@
                || w.len() == 0,
            Err(_) => w.len() > 0 && lowered(w) != "true"@ && lowered(w) != "yes"@ && lowered(w)
                != "1"@ && lowered(w) != "false"@ && lowered(w) != "no"@ && lowered(w) != "0"@,
        },
{
    lemma_core(a, w, b, Strip::White);
    reveal_strlit("true");
    reveal_strlit("yes");
    reveal_strlit("1");
    reveal_strlit("");
    let l = lowered(w);
    if w.len() == 0 {
        assert(l =~= ""@);
    }
    if l == ""@ {
        assert(l.len() == w.len());
    }
}

/// Lower case changes the letters from A to Z, each into the one that stands as
/// far behind `a` as it stands behind `A`, and no other character.
pub proof fn law_lower_case(s: Seq<char>, i: int)
    requires
        0 <= i < s.len(),
    ensures
        lowered(s).len() == s.len(),
        'A' <= s[i] <= 'Z' ==> lowered(s)[i] as nat - 'a' as nat == s[i] as nat - 'A' as nat,
        !('A' <= s[i] <= 'Z') ==> lowered(s)[i] == s[i],
{
}

// ---------------------------------------------------------------------------
// Answers
// ---------------------------------------------------------------------------

/// The answer that counts is the latest that was given to the question.
pub proof fn law_the_latest_answer_counts<T>(
    entries: Seq<(Seq<char>, T)>,
    text: Seq<char>,
    i: int,
)
    requires
        -1 <= i < entries.len(),
        i >= 0 ==> entries[i].0 == text,
        forall|j: int| i < j < entries.len() ==> (#[trigger] entries[j]).0 != text,
    ensures
        entry_of(entries, text) == if i >= 0 {
            Some(entries[i].1)
        } else {
            None
        },
    decreases entries.len(),
{
    if entries.len() > 0 && i < entries.len() - 1 {
        assert(entries[entries.len() - 1].0 != text);
        let before = entries.drop_last();
        assert forall|j: int| i < j < before.len() implies (#[trigger] before[j]).0 != text by {
            assert(entries[j].0 != text);
        }
        law_the_latest_answer_counts(before, text, i);
    }
}

/// The product that counts is the latest that was given for the number and the
/// scale.
pub proof fn law_the_latest_product_counts(
    entries: Seq<(u64, u8, Option<i128>)>,
    bits: u64,
    scale: u8,
    i: int,
)
    requires
        -1 <= i < entries.len(),
        i >= 0 ==> entries[i].0 == bits && entries[i].1 == scale,
        forall|j: int|
            i < j < entries.len() ==> !((#[trigger] entries[j]).0 == bits && entries[j].1 == scale),
    ensures
        product_of(entries, bits, scale) == if i >= 0 {
            Some(entries[i].2)
        } else {
            None
        },
    decreases entries.len(),
{
    if entries.len() > 0 && i < entries.len() - 1 {
        assert(!(entries[entries.len() - 1].0 == bits && entries[entries.len() - 1].1 == scale));
        let before = entries.drop_last();
        assert forall|j: int| i < j < before.len() implies !((#[trigger] before[j]).0 == bits
            && before[j].1 == scale) by {
            assert(!(entries[j].0 == bits && entries[j].1 == scale));
        }
        law_the_latest_product_counts(before, bits, scale, i);
    }
}

// ---------------------------------------------------------------------------
// Doubles
// ---------------------------------------------------------------------------

/// What the bits of a double say of its range, by its exponent `e` and its
/// fraction `m`. Cut towards zero it is a `u64` below two to the 64, and above
/// minus one; it is an `i64` below two to the 63, and from minus that on; and it
/// is no number where the exponent is full and the fraction is not zero.
pub proof fn law_ranges_of_doubles(f: Float, e: int, m: int, negative: bool)
    requires
        f.bits == (if negative {
            0x8000_0000_0000_0000int
        } else {
            0int
        }) + e * 0x10_0000_0000_0000 + m,
        0 <= e < 2048,
        0 <= m < 0x10_0000_0000_0000,
    ensures
        f.within_u64() <==> (if negative {
            e < 1023
        } else {
            e < 1023 + 64
        }),
        f.within_i64() <==> (e < 1023 + 63 || (negative && e == 1023 + 63 && m == 0)),
        f.is_nan() <==> (e == 2047 && m != 0),
{
    assert(f.bits as int % 0x8000_0000_0000_0000 == e * 0x10_0000_0000_0000 + m);
}

/// A text is written as it is, nothing for NULL, and any other value as its
/// JSON text.
pub proof fn law_plain_texts(s: Seq<char>, n: NumberView)
    ensures
        plain_text(Json::String(s)) == s,
        plain_text(Json::Null) == Seq::<char>::empty(),
        plain_text(Json::Bool(true)) == "true"@,
        plain_text(Json::Bool(false)) == "false"@,
        plain_text(Json::Number(n)) == n.text,
{
}

// ---------------------------------------------------------------------------
// Enums
// ---------------------------------------------------------------------------

/// Whether a name holds no quote and no backslash.
pub open spec fn is_clean(name: Seq<char>) -> bool {
    forall|i: int|
        0 <= i < name.len() ==> (#[trigger] name[i]) != '\'' && name[i] != '"' && name[i] != '\\'
}

/// A member of an enum type: its name in quotes and its number.
pub open spec fn member_text(name: Seq<char>, value: int) -> Seq<char> {
    seq!['\''] + name + seq!['\'', ' ', '=', ' '] + integer_text(value)
}

/// The members of an enum type, with a comma and a blank between them.
pub open spec fn members_text(names: Seq<Seq<char>>, values: Seq<int>) -> Seq<char>
    decreases names.len(),
{
    if names.len() == 0 {
        seq![]
    } else if names.len() == 1 {
        member_text(names[0], values[0])
    } else {
        members_text(names.drop_last(), values.drop_last()) + seq![',', ' '] + member_text(
            names.last(),
            values.last(),
        )
    }
}

/// The search passes over characters that mean nothing to it.
proof fn lemma_passed(s: Seq<char>, c: char, from: nat, to: nat, quote: Option<char>)
    requires
        from <= to <= s.len(),
        forall|i: int|
            from <= i < to ==> match quote {
                Some(q) => (#[trigger] s[i]) != q && s[i] != '\\',
                None => s[i] != c && s[i] != '\'' && s[i] != '"',
            },
    ensures
        next_bare(s, c, from, quote) == next_bare(s, c, to, quote),
    decreases to - from,
{
    if from < to {
        assert(s[from as int] == s[from as int]);
        lemma_passed(s, c, from + 1, to, quote);
    }
}

/// Where a member stands in a list.
pub open spec fn member_stands(
    list: Seq<char>,
    start: int,
    end: int,
    blanks: nat,
    name: Seq<char>,
    value: int,
) -> bool {
    &&& 0 <= start <= end <= list.len()
    &&& blanks <= 1
    &&& list.subrange(start, end) == Seq::new(blanks, |i: int| ' ') + member_text(name, value)
    &&& end == list.len() || list[end] == ','
}

#[verifier::rlimit(80)]
proof fn lemma_member_found(
    list: Seq<char>,
    start: int,
    end: int,
    blanks: nat,
    name: Seq<char>,
    value: int,
)
    requires
        member_stands(list, start, end, blanks, name, value),
        is_clean(name),
    ensures
        next_bare(list, ',', start as nat, None) == end,
        next_bare(list, '=', start as nat, None) == start + blanks + name.len() + 3,
        start + blanks + name.len() + 3 < end,
{
    let s = list.subrange(start, end);
    let num = integer_text(value);
    lemma_integer_text(value);
    let open = start + blanks;
    let close = open + 1 + name.len();
    let tail = close + 4;
    let lead = Seq::new(blanks, |i: int| ' ');
    assert(s == lead + member_text(name, value));
    assert(s.len() == blanks + name.len() + 5 + num.len());
    assert(s.len() == end - start);
    assert forall|i: int| start <= i < end implies list[i] == s[i - start] by {
        assert(s[i - start] == list[start + (i - start)]);
    }
    assert(s[blanks as int] == '\'');
    assert(s[blanks as int + 1 + name.len()] == '\'');
    assert(s[blanks as int + 2 + name.len()] == ' ');
    assert(s[blanks as int + 3 + name.len()] == '=');
    assert(s[blanks as int + 4 + name.len()] == ' ');
    assert forall|i: int| start <= i < open implies list[i] == ' ' by {
        assert(s[i - start] == lead[i - start]);
    }
    assert(list[open] == '\'');
    assert forall|i: int| open < i < close implies list[i] == name[i - open - 1] by {
        assert(list[i] == s[i - start]);
    }
    assert(list[close] == '\'');
    assert(list[close + 1] == ' ');
    assert(list[close + 2] == '=');
    assert(list[close + 3] == ' ');
    assert forall|i: int| tail <= i < end implies list[i] == num[i - tail] by {
        assert(list[i] == s[i - start]);
    }
    assert(end == tail + num.len());
    assert forall|i: int| tail <= i < end implies list[i] != ',' && list[i] != '\'' && list[i]
        != '"' by {
        assert('0' <= num[i - tail] <= '9' || num[i - tail] == '-');
    }
    assert forall|c: char| c == ',' || c == '=' implies #[trigger] next_bare(
        list,
        c,
        start as nat,
        None,
    ) == next_bare(list, c, (close + 1) as nat, None) by {
        lemma_passed(list, c, start as nat, open as nat, None);
        assert(next_bare(list, c, open as nat, None) == next_bare(
            list,
            c,
            (open + 1) as nat,
            Some('\''),
        ));
        assert forall|i: int| open + 1 <= i < close implies (#[trigger] list[i]) != '\'' && list[i]
            != '\\' by {
            assert(list[i] == name[i - open - 1]);
        }
        lemma_passed(list, c, (open + 1) as nat, close as nat, Some('\''));
        assert(next_bare(list, c, close as nat, Some('\'')) == next_bare(
            list,
            c,
            (close + 1) as nat,
            None,
        ));
    }
    lemma_passed(list, ',', (close + 1) as nat, end as nat, None);
    assert(next_bare(list, ',', end as nat, None) == end);
    lemma_passed(list, '=', (close + 1) as nat, (close + 2) as nat, None);
    assert(next_bare(list, '=', (close + 2) as nat, None) == close + 2);
}

#[verifier::rlimit(80)]
proof fn lemma_member_read(
    list: Seq<char>,
    start: int,
    end: int,
    blanks: nat,
    name: Seq<char>,
    value: int,
)
    requires
        member_stands(list, start, end, blanks, name, value),
        is_clean(name),
        i64::MIN <= value <= i64::MAX,
    ensures
        ({
            let equals = start + blanks + name.len() + 3;
            &&& label_of(list.subrange(start, equals)) == name
            &&& spelled_i64(trim(list.subrange(equals + 1, end), Strip::White)) == Some(value)
        }),
{
    let s = list.subrange(start, end);
    let num = integer_text(value);
    lemma_integer_text(value);
    let equals = start + blanks + name.len() + 3;
    let lead = Seq::new(blanks, |i: int| ' ');
    let inner = seq!['\''] + name + seq!['\''];
    let one = seq![' '];
    assert(s == lead + member_text(name, value));
    assert(s.len() == blanks + name.len() + 5 + num.len());
    assert(s.len() == end - start);
    assert(equals < end);
    assert(list.subrange(start, equals) =~= s.take(equals - start));
    assert(s.take(equals - start) =~= lead + inner + one);
    assert(all_stripped(lead, Strip::White));
    assert(all_stripped(one, Strip::White));
    assert(!Strip::White.strips('\''));
    assert(inner[0] == '\'' && inner.last() == '\'');
    lemma_core(lead, inner, one, Strip::White);
    let q = seq!['\''];
    assert(all_stripped(q, Strip::One('\'')));
    if name.len() > 0 {
        assert(name[0] != '\'' && name[name.len() - 1] != '\'');
        assert(name[0] != '"' && name[name.len() - 1] != '"');
    }
    lemma_core(q, name, q, Strip::One('\''));
    assert(seq![] + name + seq![] =~= name);
    lemma_core(seq![], name, seq![], Strip::One('"'));
    let rest = list.subrange(equals + 1, end);
    assert(rest =~= s.skip(equals + 1 - start));
    assert(s.skip(equals + 1 - start) =~= one + num + seq![]);
    assert(all_stripped(Seq::<char>::empty(), Strip::White));
    assert('0' <= num[0] <= '9' || num[0] == '-');
    assert('0' <= num[num.len() - 1] <= '9' || num[num.len() - 1] == '-');
    lemma_core(one, num, seq![], Strip::White);
}

/// Where member `i` begins.
pub open spec fn member_start(names: Seq<Seq<char>>, values: Seq<int>, i: int) -> int {
    if i == 0 {
        0
    } else {
        members_text(names.take(i), values.take(i)).len() as int + 1
    }
}

/// Every member stands in its place.
#[verifier::rlimit(80)]
proof fn lemma_member_stands(names: Seq<Seq<char>>, values: Seq<int>, i: int)
    requires
        names.len() == values.len(),
        0 <= i < names.len(),
    ensures
        member_stands(
            members_text(names, values),
            member_start(names, values, i),
            members_text(names.take(i + 1), values.take(i + 1)).len() as int,
            if i == 0 {
                0
            } else {
                1
            },
            names[i],
            values[i],
        ),
        i + 1 < names.len() ==> members_text(names.take(i + 1), values.take(i + 1)).len()
            < members_text(names, values).len(),
        i + 1 == names.len() ==> names.take(i + 1) == names && values.take(i + 1) == values,
    decreases names.len(),
{
    let list = members_text(names, values);
    let n = names.len() - 1;
    if i == n {
        assert(names.take(i + 1) =~= names);
        assert(values.take(i + 1) =~= values);
        assert(names.take(i) =~= names.drop_last());
        assert(values.take(i) =~= values.drop_last());
        let start = member_start(names, values, i);
        let m = member_text(names[i], values[i]);
        if i == 0 {
            assert(list.subrange(0, list.len() as int) =~= Seq::new(0, |i: int| ' ') + m);
        } else {
            assert(list.subrange(start, list.len() as int) =~= Seq::new(1, |i: int| ' ') + m);
        }
    } else {
        let nb = names.drop_last();
        let vb = values.drop_last();
        let before = members_text(nb, vb);
        lemma_member_stands(nb, vb, i);
        assert(nb.take(i + 1) =~= names.take(i + 1));
        assert(vb.take(i + 1) =~= values.take(i + 1));
        assert(nb.take(i) =~= names.take(i));
        assert(vb.take(i) =~= values.take(i));
        let start = member_start(names, values, i);
        let end = members_text(names.take(i + 1), values.take(i + 1)).len() as int;
        assert(list =~= before + seq![',', ' '] + member_text(names.last(), values.last()));
        assert(list.subrange(start, end) =~= before.subrange(start, end));
        if end == before.len() {
            assert(list[end] == ',');
        } else {
            assert(list[end] == before[end]);
        }
    }
}

#[verifier::rlimit(80)]
proof fn lemma_member_value(
    names: Seq<Seq<char>>,
    values: Seq<int>,
    name: Seq<char>,
    i: int,
    k: int,
)
    requires
        names.len() == values.len(),
        0 <= i <= k <= names.len(),
        i < names.len(),
        forall|j: int| 0 <= j < names.len() ==> is_clean(#[trigger] names[j]),
        forall|j: int| 0 <= j < names.len() ==> i64::MIN <= #[trigger] values[j] <= i64::MAX,
        forall|j: int| i <= j < k ==> (#[trigger] names[j]) != name,
        k < names.len() ==> names[k] == name,
    ensures
        member_value(members_text(names, values), name, member_start(names, values, i) as nat)
            == if k < names.len() {
            Some(values[k])
        } else {
            None
        },
    decreases names.len() - i,
{
    let list = members_text(names, values);
    let start = member_start(names, values, i);
    let end = members_text(names.take(i + 1), values.take(i + 1)).len() as int;
    let blanks: nat = if i == 0 {
        0
    } else {
        1
    };
    lemma_member_stands(names, values, i);
    assert(is_clean(names[i]));
    assert(i64::MIN <= values[i] <= i64::MAX);
    lemma_member_found(list, start, end, blanks, names[i], values[i]);
    lemma_member_read(list, start, end, blanks, names[i], values[i]);
    if i < k {
        assert(names[i] != name);
        if i + 1 < names.len() {
            lemma_member_value(names, values, name, i + 1, k);
        }
    }
}

/// The name of a member of an enum stands for the number that the type gives to
/// the first member of that name, and a name that is no member for none.
pub proof fn law_enum_names_stand_for_their_numbers(
    base: Seq<char>,
    names: Seq<Seq<char>>,
    values: Seq<int>,
    name: Seq<char>,
    k: int,
)
    requires
        forall|j: int| 0 <= j < base.len() ==> #[trigger] base[j] != '(',
        0 < names.len() == values.len(),
        0 <= k <= names.len(),
        forall|j: int| 0 <= j < names.len() ==> is_clean(#[trigger] names[j]),
        forall|j: int| 0 <= j < names.len() ==> i64::MIN <= #[trigger] values[j] <= i64::MAX,
        forall|j: int| 0 <= j < k ==> (#[trigger] names[j]) != name,
        k < names.len() ==> names[k] == name,
    ensures
        enum_value(base + seq!['('] + members_text(names, values) + seq![')'], name) == if k
            < names.len() {
            Some(values[k])
        } else {
            None
        },
{
    let list = members_text(names, values);
    let t = base + seq!['('] + list + seq![')'];
    law_next_place(t, '(', 0);
    let start = crate::text::next_of(t, '(', 0);
    assert(t[base.len() as int] == '(');
    if start < base.len() {
        assert(t[start as int] == base[start as int]);
    }
    if start > base.len() {
        assert(t[base.len() as int] != '(');
    }
    law_last_place(t, ')', t.len());
    assert(t[t.len() - 1] == ')');
    assert(crate::text::last_of(t, ')', t.len()) == Some((t.len() - 1) as nat));
    assert(t.subrange(start as int + 1, t.len() - 1) =~= list);
    lemma_member_value(names, values, name, 0, k);
}

/// A string that spells a number is that number of an enum, any other the
/// number of the member it names.
pub proof fn law_enum_values(s: Seq<char>, t: Seq<char>, col: Seq<char>)
    ensures
        spelled_i64(trim(s, Strip::White)) matches Some(i) ==> enum_of(Json::String(s), t, col)
            == Ok::<int, DynamicErrorView>(i),
        spelled_i64(trim(s, Strip::White)) is None ==> match enum_value(t, s) {
            Some(i) => enum_of(Json::String(s), t, col) == Ok::<int, DynamicErrorView>(i),
            None => enum_of(Json::String(s), t, col) is Err,
        },
{
}

} // verus!
