//! Text helpers shared by the type-name parsers, the encoders and the error
//! messages. Text is modelled as a sequence of `char`.

use vstd::prelude::*;
use vstd::string::*;

verus! {

/// `String::push` appends one character.
pub assume_specification[ std::string::String::push ](s: &mut std::string::String, c: char)
    ensures
        final(s)@ == old(s)@.push(c),
;

/// The character of the decimal digit `d`.
pub open spec fn digit(d: nat) -> char {
    ('0' as nat + d) as char
}

/// The decimal text of `n`, without leading zeros.
pub open spec fn decimal(n: nat) -> Seq<char>
    decreases n,
{
    if n < 10 {
        seq![digit(n)]
    } else {
        decimal(n / 10).push(digit(n % 10))
    }
}

/// The decimal text of `n` as ASCII bytes.
pub open spec fn decimal_bytes(n: nat) -> Seq<u8>
    decreases n,
{
    if n < 10 {
        seq![(48 + n) as u8]
    } else {
        decimal_bytes(n / 10).push((48 + n % 10) as u8)
    }
}

/// The decimal text of a signed number as ASCII bytes.
pub open spec fn signed_bytes(n: int) -> Seq<u8> {
    if n < 0 {
        seq![45u8] + decimal_bytes((-n) as nat)
    } else {
        decimal_bytes(n as nat)
    }
}

/// Append the decimal text of `n`.
pub fn push_decimal(out: &mut String, n: u128)
    ensures
        final(out)@ == old(out)@ + decimal(n as nat),
    decreases n,
{
    if n >= 10 {
        push_decimal(out, n / 10);
    }
    let d: u8 = 48 + (n % 10) as u8;
    let ghost before = out@;
    out.push(d as char);
    proof {
        let k = (n % 10) as nat;
        assert(d as char == digit(k));
        if n >= 10 {
            assert(out@ =~= old(out)@ + decimal((n / 10) as nat).push(digit(k)));
        } else {
            assert(out@ =~= old(out)@ + seq![digit(k)]);
        }
    }
}

/// Append the decimal text of `n` as ASCII bytes.
pub fn push_decimal_bytes(out: &mut Vec<u8>, n: u128)
    ensures
        final(out)@ == old(out)@ + decimal_bytes(n as nat),
    decreases n,
{
    if n >= 10 {
        push_decimal_bytes(out, n / 10);
    }
    let d: u8 = 48 + (n % 10) as u8;
    out.push(d);
    proof {
        let k = (n % 10) as nat;
        if n >= 10 {
            assert(out@ =~= old(out)@ + decimal_bytes((n / 10) as nat).push((48 + k) as u8));
        } else {
            assert(out@ =~= old(out)@ + seq![(48 + k) as u8]);
        }
    }
}

/// The characters of `s`.
pub fn chars_of(s: &str) -> (out: Vec<char>)
    ensures
        out@ == s@,
{
    let mut out: Vec<char> = Vec::new();
    for c in it: s.chars()
        invariant
            out@ == it.seq().take(it.index() as int),
            it.seq() == s@,
    {
        out.push(c);
    }
    out
}

/// The text made of `chars`.
pub fn text_of(chars: &[char]) -> (out: String)
    ensures
        out@ == chars@,
{
    let mut out = String::new();
    let mut i: usize = 0;
    while i < chars.len()
        invariant
            i <= chars.len(),
            out@ == chars@.take(i as int),
        decreases chars.len() - i,
    {
        out.push(chars[i]);
        i += 1;
        assert(chars@.take(i as int) =~= chars@.take(i - 1).push(chars@[i - 1]));
    }
    assert(chars@.take(i as int) =~= chars@);
    out
}

/// Whether `c` has the Unicode `White_Space` property.
pub open spec fn is_white(c: char) -> bool {
    ||| '\u{9}' <= c <= '\u{d}'
    ||| c == ' '
    ||| c == '\u{85}'
    ||| c == '\u{a0}'
    ||| c == '\u{1680}'
    ||| '\u{2000}' <= c <= '\u{200a}'
    ||| c == '\u{2028}'
    ||| c == '\u{2029}'
    ||| c == '\u{202f}'
    ||| c == '\u{205f}'
    ||| c == '\u{3000}'
}

/// The characters a trim removes.
#[derive(Clone, Copy)]
pub enum Strip {
    /// Unicode whitespace.
    White,
    /// One character.
    One(char),
    /// Any of four characters.
    AnyOf(char, char, char, char),
}

impl Strip {
    pub open spec fn strips(self, c: char) -> bool {
        match self {
            Strip::White => is_white(c),
            Strip::One(a) => c == a,
            Strip::AnyOf(a, b, d, e) => c == a || c == b || c == d || c == e,
        }
    }

    fn removes(self, c: char) -> (yes: bool)
        ensures
            yes == self.strips(c),
    {
        match self {
            Strip::White => ('\u{9}' <= c && c <= '\u{d}') || c == ' ' || c == '\u{85}'
                || c == '\u{a0}' || c == '\u{1680}' || ('\u{2000}' <= c && c <= '\u{200a}')
                || c == '\u{2028}' || c == '\u{2029}' || c == '\u{202f}' || c == '\u{205f}'
                || c == '\u{3000}',
            Strip::One(a) => c == a,
            Strip::AnyOf(a, b, d, e) => c == a || c == b || c == d || c == e,
        }
    }
}

/// `s` without its leading run of stripped characters.
pub open spec fn trim_start(s: Seq<char>, what: Strip) -> Seq<char>
    decreases s.len(),
{
    if s.len() > 0 && what.strips(s.first()) {
        trim_start(s.skip(1), what)
    } else {
        s
    }
}

/// `s` without its trailing run of stripped characters.
pub open spec fn trim_end(s: Seq<char>, what: Strip) -> Seq<char>
    decreases s.len(),
{
    if s.len() > 0 && what.strips(s.last()) {
        trim_end(s.drop_last(), what)
    } else {
        s
    }
}

/// `s` without the stripped characters at both ends.
pub open spec fn trim(s: Seq<char>, what: Strip) -> Seq<char> {
    trim_end(trim_start(s, what), what)
}

/// Drop the leading run of stripped characters.
pub fn trimmed_start<'a>(s: &'a [char], what: Strip) -> (out: &'a [char])
    ensures
        out@ == trim_start(s@, what),
{
    let mut i: usize = 0;
    proof {
        assert(s@.skip(0) =~= s@);
    }
    while i < s.len() && what.removes(s[i])
        invariant
            i <= s.len(),
            trim_start(s@.skip(i as int), what) == trim_start(s@, what),
        ensures
            i <= s.len(),
            trim_start(s@.skip(i as int), what) == trim_start(s@, what),
            i < s.len() ==> !what.strips(s@[i as int]),
        decreases s.len() - i,
    {
        assert(s@.skip(i as int).skip(1) =~= s@.skip(i + 1));
        assert(s@.skip(i as int).first() == s@[i as int]);
        i += 1;
    }
    proof {
        if i < s.len() {
            assert(s@.skip(i as int).first() == s@[i as int]);
        }
        assert(s@.subrange(i as int, s@.len() as int) =~= s@.skip(i as int));
    }
    vstd::slice::slice_subrange(s, i, s.len())
}

/// Drop the trailing run of stripped characters.
pub fn trimmed_end<'a>(s: &'a [char], what: Strip) -> (out: &'a [char])
    ensures
        out@ == trim_end(s@, what),
{
    let mut n: usize = s.len();
    proof {
        assert(s@.take(n as int) =~= s@);
    }
    while n > 0 && what.removes(s[n - 1])
        invariant
            n <= s.len(),
            trim_end(s@.take(n as int), what) == trim_end(s@, what),
        ensures
            n <= s.len(),
            trim_end(s@.take(n as int), what) == trim_end(s@, what),
            n > 0 ==> !what.strips(s@[n - 1]),
        decreases n,
    {
        assert(s@.take(n as int).drop_last() =~= s@.take(n - 1));
        assert(s@.take(n as int).last() == s@[n - 1]);
        n -= 1;
    }
    proof {
        if n > 0 {
            assert(s@.take(n as int).last() == s@[n - 1]);
        }
        assert(s@.subrange(0, n as int) =~= s@.take(n as int));
    }
    vstd::slice::slice_subrange(s, 0, n)
}

/// Drop the stripped characters at both ends.
pub fn trimmed<'a>(s: &'a [char], what: Strip) -> (out: &'a [char])
    ensures
        out@ == trim(s@, what),
{
    trimmed_end(trimmed_start(s, what), what)
}

/// A trim leaves no more than there was.
pub proof fn lemma_trim_len(s: Seq<char>, what: Strip)
    ensures
        trim(s, what).len() <= s.len(),
{
    lemma_trim_start_len(s, what);
    lemma_trim_end_len(trim_start(s, what), what);
}

proof fn lemma_trim_start_len(s: Seq<char>, what: Strip)
    ensures
        trim_start(s, what).len() <= s.len(),
    decreases s.len(),
{
    if s.len() > 0 && what.strips(s[0]) {
        lemma_trim_start_len(s.drop_first(), what);
    }
}

proof fn lemma_trim_end_len(s: Seq<char>, what: Strip)
    ensures
        trim_end(s, what).len() <= s.len(),
    decreases s.len(),
{
    if s.len() > 0 && what.strips(s.last()) {
        lemma_trim_end_len(s.drop_last(), what);
    }
}

/// Text that begins and ends with other characters is not trimmed.
pub proof fn lemma_untrimmed(s: Seq<char>)
    requires
        s.len() > 0,
        !is_white(s[0]),
        !is_white(s.last()),
    ensures
        trim(s, Strip::White) == s,
{
}

/// Whether `s` begins with `prefix`.
pub open spec fn has_prefix(s: Seq<char>, prefix: Seq<char>) -> bool {
    prefix.len() <= s.len() && s.take(prefix.len() as int) == prefix
}

/// Whether `s` and `other` hold the same characters.
pub fn same_chars(s: &[char], other: &[char]) -> (yes: bool)
    ensures
        yes == (s@ == other@),
{
    if s.len() != other.len() {
        return false;
    }
    let mut i: usize = 0;
    while i < s.len()
        invariant
            i <= s.len(),
            s.len() == other.len(),
            forall|k: int| 0 <= k < i ==> s@[k] == other@[k],
        decreases s.len() - i,
    {
        if s[i] != other[i] {
            return false;
        }
        i += 1;
    }
    assert(s@ =~= other@);
    true
}

/// Whether `s` spells `word`.
pub fn spells(s: &[char], word: &str) -> (yes: bool)
    ensures
        yes == (s@ == word@),
{
    let w = chars_of(word);
    same_chars(s, w.as_slice())
}

/// Whether two texts are the same.
pub fn same_text(a: &str, b: &str) -> (yes: bool)
    ensures
        yes == (a@ == b@),
{
    let chars = chars_of(a);
    spells(chars.as_slice(), b)
}

/// Whether `s` begins with `prefix`.
pub fn begins_with(s: &[char], prefix: &str) -> (yes: bool)
    ensures
        yes == has_prefix(s@, prefix@),
{
    let p = chars_of(prefix);
    if p.len() > s.len() {
        return false;
    }
    assert(s@.subrange(0, p@.len() as int) =~= s@.take(p@.len() as int));
    same_chars(vstd::slice::slice_subrange(s, 0, p.len()), p.as_slice())
}

/// The first place of `c` at or behind `from`, or the end.
pub open spec fn next_of(s: Seq<char>, c: char, from: nat) -> nat
    decreases s.len() - from,
{
    if from >= s.len() || s[from as int] == c {
        from
    } else {
        next_of(s, c, from + 1)
    }
}

/// The last place of `c` before `n`.
pub open spec fn last_of(s: Seq<char>, c: char, n: nat) -> Option<nat>
    decreases n,
{
    if n == 0 {
        None
    } else if s[n - 1] == c {
        Some((n - 1) as nat)
    } else {
        last_of(s, c, (n - 1) as nat)
    }
}

/// The first place of `c` at or behind `from`, or the end.
pub fn find_from(s: &[char], c: char, from: usize) -> (i: usize)
    requires
        from <= s@.len(),
    ensures
        i == next_of(s@, c, from as nat),
        from <= i <= s@.len(),
{
    let mut i: usize = from;
    while i < s.len() && s[i] != c
        invariant
            from <= i <= s.len(),
            next_of(s@, c, from as nat) == next_of(s@, c, i as nat),
        decreases s.len() - i,
    {
        i += 1;
    }
    i
}

/// The last place of `c`.
pub fn find_last(s: &[char], c: char) -> (out: Option<usize>)
    ensures
        match out {
            Some(i) => last_of(s@, c, s@.len()) == Some(i as nat) && i < s@.len(),
            None => last_of(s@, c, s@.len()) is None,
        },
{
    let mut n: usize = s.len();
    while n > 0
        invariant
            n <= s.len(),
            last_of(s@, c, s@.len()) == last_of(s@, c, n as nat),
        decreases n,
    {
        if s[n - 1] == c {
            return Some(n - 1);
        }
        n -= 1;
    }
    None
}

/// Whether `part` stands in `s` at `i`.
pub open spec fn stands_in(s: Seq<char>, part: Seq<char>, i: int) -> bool {
    0 <= i && i + part.len() <= s.len() && s.subrange(i, i + part.len()) == part
}

/// The first place of `part` in `s` at or behind `from`.
pub open spec fn first_at(s: Seq<char>, part: Seq<char>, from: nat) -> Option<nat>
    decreases s.len() + 1 - from,
{
    if from + part.len() > s.len() {
        None
    } else if stands_in(s, part, from as int) {
        Some(from)
    } else {
        first_at(s, part, from + 1)
    }
}

/// The last place of `part` in `s` at or before `from`.
pub open spec fn last_at(s: Seq<char>, part: Seq<char>, from: nat) -> Option<nat>
    decreases from,
{
    if stands_in(s, part, from as int) {
        Some(from)
    } else if from == 0 {
        None
    } else {
        last_at(s, part, (from - 1) as nat)
    }
}

/// Whether `part` stands anywhere in `s`.
pub open spec fn mentions(s: Seq<char>, part: Seq<char>) -> bool {
    first_at(s, part, 0) is Some
}

/// A search finds the first place of a text at or behind `from`, and nothing
/// exactly where it stands nowhere there.
pub proof fn law_found_first(s: Seq<char>, part: Seq<char>, from: nat)
    ensures
        match first_at(s, part, from) {
            Some(i) => {
                &&& from <= i
                &&& stands_in(s, part, i as int)
                &&& forall|j: int| from <= j < i ==> !#[trigger] stands_in(s, part, j)
            },
            None => forall|j: int| from <= j ==> !#[trigger] stands_in(s, part, j),
        },
    decreases s.len() + 1 - from,
{
    if from + part.len() <= s.len() && !stands_in(s, part, from as int) {
        law_found_first(s, part, from + 1);
    }
}

/// A search from the end finds the last place of a text at or before `from`.
pub proof fn law_found_last(s: Seq<char>, part: Seq<char>, from: nat)
    ensures
        match last_at(s, part, from) {
            Some(i) => {
                &&& i <= from
                &&& stands_in(s, part, i as int)
                &&& forall|j: int| i < j <= from ==> !#[trigger] stands_in(s, part, j)
            },
            None => forall|j: int| 0 <= j <= from ==> !#[trigger] stands_in(s, part, j),
        },
    decreases from,
{
    if !stands_in(s, part, from as int) && from > 0 {
        law_found_last(s, part, (from - 1) as nat);
    }
}

/// The next place of a character holds it, and none before it does; the end
/// stands for none.
pub proof fn law_next_place(s: Seq<char>, c: char, from: nat)
    requires
        from <= s.len(),
    ensures
        from <= next_of(s, c, from) <= s.len(),
        next_of(s, c, from) < s.len() ==> s[next_of(s, c, from) as int] == c,
        forall|j: int| from <= j < next_of(s, c, from) ==> #[trigger] s[j] != c,
    decreases s.len() - from,
{
    if from < s.len() && s[from as int] != c {
        law_next_place(s, c, from + 1);
    }
}

/// The last place of a character before `n` holds it, and none behind it does.
pub proof fn law_last_place(s: Seq<char>, c: char, n: nat)
    requires
        n <= s.len(),
    ensures
        match last_of(s, c, n) {
            Some(i) => i < n && s[i as int] == c && forall|j: int|
                i < j < n ==> #[trigger] s[j] != c,
            None => forall|j: int| 0 <= j < n ==> #[trigger] s[j] != c,
        },
    decreases n,
{
    if n > 0 && s[n - 1] != c {
        law_last_place(s, c, (n - 1) as nat);
    }
}

/// Trimming takes away a run of stripped characters at either end and no more:
/// what is left neither begins nor ends with one, and what is gone is made of
/// them.
pub proof fn law_trimmed(s: Seq<char>, what: Strip)
    ensures
        exists|a: int, b: int|
            0 <= a <= b <= s.len() && trim(s, what) == #[trigger] s.subrange(a, b) && (
            forall|i: int| (0 <= i < a || b <= i < s.len()) ==> what.strips(#[trigger] s[i])),
        trim(s, what).len() > 0 ==> !what.strips(trim(s, what)[0]) && !what.strips(
            trim(s, what).last(),
        ),
{
    let a = lemma_trim_front(s, what);
    let t = s.skip(a);
    let n = lemma_trim_back(t, what);
    let b = a + n;
    assert(t.take(n) =~= s.subrange(a, b));
    assert forall|i: int| (0 <= i < a || b <= i < s.len()) implies what.strips(#[trigger] s[i]) by {
        if i >= b {
            assert(t[i - a] == s[i]);
        }
    }
    if n > 0 {
        assert(t.take(n)[0] == t[0]);
    }
}

proof fn lemma_trim_front(s: Seq<char>, what: Strip) -> (a: int)
    ensures
        0 <= a <= s.len(),
        trim_start(s, what) == s.skip(a),
        forall|i: int| 0 <= i < a ==> what.strips(#[trigger] s[i]),
        a < s.len() ==> !what.strips(s[a]),
    decreases s.len(),
{
    if s.len() > 0 && what.strips(s[0]) {
        let rest = s.skip(1);
        let a = lemma_trim_front(rest, what);
        assert(rest.skip(a) =~= s.skip(a + 1));
        assert forall|i: int| 0 <= i < a + 1 implies what.strips(#[trigger] s[i]) by {
            if i > 0 {
                assert(rest[i - 1] == s[i]);
            }
        }
        a + 1
    } else {
        assert(s.skip(0) =~= s);
        0
    }
}

proof fn lemma_trim_back(s: Seq<char>, what: Strip) -> (n: int)
    ensures
        0 <= n <= s.len(),
        trim_end(s, what) == s.take(n),
        forall|i: int| n <= i < s.len() ==> what.strips(#[trigger] s[i]),
        n > 0 ==> !what.strips(s[n - 1]),
    decreases s.len(),
{
    if s.len() > 0 && what.strips(s.last()) {
        let rest = s.drop_last();
        let n = lemma_trim_back(rest, what);
        assert(rest.take(n) =~= s.take(n));
        assert forall|i: int| n <= i < s.len() implies what.strips(#[trigger] s[i]) by {
            if i < rest.len() {
                assert(rest[i] == s[i]);
            }
        }
        n
    } else {
        assert(s.take(s.len() as int) =~= s);
        s.len() as int
    }
}

fn is_at(s: &[char], part: &[char], i: usize) -> (yes: bool)
    requires
        i <= s@.len(),
    ensures
        yes == stands_in(s@, part@, i as int),
{
    if s.len() - i < part.len() {
        return false;
    }
    same_chars(vstd::slice::slice_subrange(s, i, i + part.len()), part)
}

/// The first place of `part` in `s`.
pub fn find_text(s: &[char], part: &str) -> (out: Option<usize>)
    ensures
        match out {
            Some(i) => first_at(s@, part@, 0) == Some(i as nat) && stands_in(s@, part@, i as int),
            None => first_at(s@, part@, 0) is None,
        },
{
    let p = chars_of(part);
    let mut i: usize = 0;
    while i <= s.len()
        invariant
            i <= s.len() + 1,
            p@ == part@,
            first_at(s@, part@, 0) == first_at(s@, part@, i as nat),
        decreases s.len() + 1 - i,
    {
        if is_at(s, p.as_slice(), i) {
            return Some(i);
        }
        if i == s.len() {
            proof {
                if part@.len() == 0 {
                    assert(s@.subrange(i as int, i as int) =~= part@);
                }
            }
            return None;
        }
        i += 1;
    }
    None
}

/// The last place of `part` in `s`.
pub fn find_text_last(s: &[char], part: &str) -> (out: Option<usize>)
    ensures
        match out {
            Some(i) => last_at(s@, part@, s@.len()) == Some(i as nat) && stands_in(
                s@,
                part@,
                i as int,
            ),
            None => last_at(s@, part@, s@.len()) is None,
        },
{
    let p = chars_of(part);
    let mut i: usize = s.len();
    loop
        invariant
            i <= s.len(),
            p@ == part@,
            last_at(s@, part@, s@.len()) == last_at(s@, part@, i as nat),
        decreases i,
    {
        if is_at(s, p.as_slice(), i) {
            return Some(i);
        }
        if i == 0 {
            return None;
        }
        i -= 1;
    }
}

/// Whether every character of `s` is an ASCII digit.
pub open spec fn all_digits(s: Seq<char>) -> bool {
    forall|i: int| 0 <= i < s.len() ==> '0' <= #[trigger] s[i] <= '9'
}

/// The number that the digits of `s` spell in base ten.
pub open spec fn number(s: Seq<char>) -> nat
    decreases s.len(),
{
    if s.len() == 0 {
        0
    } else {
        (10 * number(s.drop_last()) + (s.last() as nat - '0' as nat)) as nat
    }
}

/// The integer that `s` spells: an optional `+`, or `-` where `signed`, then
/// at least one digit and nothing else.
pub open spec fn parse_integer(s: Seq<char>, signed: bool) -> Option<int> {
    let plus = s.len() > 0 && s[0] == '+';
    let minus = signed && s.len() > 0 && s[0] == '-';
    let body = if plus || minus {
        s.skip(1)
    } else {
        s
    };
    if body.len() == 0 || !all_digits(body) {
        None
    } else if minus {
        Some(-(number(body) as int))
    } else {
        Some(number(body) as int)
    }
}

/// The decimal text of a number is made of digits, and reads as the number.
pub proof fn lemma_decimal_reads(n: nat)
    ensures
        decimal(n).len() > 0,
        all_digits(decimal(n)),
        number(decimal(n)) == n,
    decreases n,
{
    let s = decimal(n);
    if n >= 10 {
        lemma_decimal_reads(n / 10);
        let before = decimal(n / 10);
        assert(s.drop_last() =~= before);
        assert forall|i: int| 0 <= i < s.len() implies '0' <= #[trigger] s[i] <= '9' by {
            if i < before.len() {
                assert(before[i] == s[i]);
            }
        }
    } else {
        assert(s.drop_last() =~= seq![]);
        assert(s.last() == s[0]);
        assert(number(s.drop_last()) == 0);
    }
}

/// [`parse_integer`] limited to the range of the target type.
pub open spec fn parse_within(s: Seq<char>, signed: bool, lo: int, hi: int) -> Option<int> {
    match parse_integer(s, signed) {
        Some(v) if lo <= v <= hi => Some(v),
        _ => None,
    }
}

proof fn lemma_number_grows(s: Seq<char>, k: int)
    requires
        all_digits(s),
        0 <= k <= s.len(),
    ensures
        number(s.take(k)) <= number(s),
    decreases s.len(),
{
    if k < s.len() {
        let t = s.drop_last();
        assert(t.take(k) =~= s.take(k));
        lemma_number_grows(t, k);
    } else {
        assert(s.take(k) =~= s);
    }
}

/// The value of a nonempty digit run, where it fits.
fn magnitude(s: &[char]) -> (out: Option<u128>)
    ensures
        out == (if s@.len() > 0 && all_digits(s@) && number(s@) <= u128::MAX {
            Some(number(s@) as u128)
        } else {
            None
        }),
{
    if s.len() == 0 {
        return None;
    }
    let mut i: usize = 0;
    while i < s.len()
        invariant
            i <= s.len(),
            forall|k: int| 0 <= k < i ==> '0' <= #[trigger] s@[k] <= '9',
        decreases s.len() - i,
    {
        if !('0' <= s[i] && s[i] <= '9') {
            assert(!all_digits(s@));
            return None;
        }
        i += 1;
    }
    let mut v: u128 = 0;
    let mut j: usize = 0;
    while j < s.len()
        invariant
            j <= s.len(),
            all_digits(s@),
            v == number(s@.take(j as int)),
        decreases s.len() - j,
    {
        let d: u128 = (s[j] as u32 - '0' as u32) as u128;
        proof {
            let next = s@.take(j + 1);
            assert(next.drop_last() =~= s@.take(j as int));
            assert(next.last() == s@[j as int]);
            assert(number(next) == 10 * v + d);
            lemma_number_grows(s@, j + 1);
        }
        if v > (u128::MAX - d) / 10 {
            assert(10 * v + d > u128::MAX);
            return None;
        }
        v = v * 10 + d;
        j += 1;
    }
    assert(s@.take(j as int) =~= s@);
    Some(v)
}

/// Parse an unsigned integer no larger than `hi`.
pub fn parse_unsigned(s: &[char], hi: u128) -> (out: Option<u128>)
    ensures
        match out {
            Some(v) => parse_within(s@, false, 0, hi as int) == Some(v as int),
            None => parse_within(s@, false, 0, hi as int) is None,
        },
{
    let body = if s.len() > 0 && s[0] == '+' {
        assert(s@.subrange(1, s@.len() as int) =~= s@.skip(1));
        vstd::slice::slice_subrange(s, 1, s.len())
    } else {
        s
    };
    match magnitude(body) {
        Some(v) => if v <= hi {
            Some(v)
        } else {
            None
        },
        None => None,
    }
}

/// Parse a signed integer within `lo..=hi`.
pub fn parse_signed(s: &[char], lo: i128, hi: i128) -> (out: Option<i128>)
    requires
        lo <= 0 <= hi,
    ensures
        match out {
            Some(v) => parse_within(s@, true, lo as int, hi as int) == Some(v as int),
            None => parse_within(s@, true, lo as int, hi as int) is None,
        },
{
    let minus = s.len() > 0 && s[0] == '-';
    let body = if minus || (s.len() > 0 && s[0] == '+') {
        assert(s@.subrange(1, s@.len() as int) =~= s@.skip(1));
        vstd::slice::slice_subrange(s, 1, s.len())
    } else {
        s
    };
    let half: u128 = 0x8000_0000_0000_0000_0000_0000_0000_0000;
    match magnitude(body) {
        Some(m) => {
            if minus {
                if m > half {
                    return None;
                }
                let v: i128 = if m == half {
                    i128::MIN
                } else {
                    -(m as i128)
                };
                if lo <= v {
                    Some(v)
                } else {
                    None
                }
            } else if m < half && m as i128 <= hi {
                Some(m as i128)
            } else {
                None
            }
        },
        None => None,
    }
}

} // verus!
