//! Typed server errors. The client flattens every rejection into
//! [`Error::BadResponse`] text, so branching on an error code means reading it
//! back out.

use vstd::prelude::*;
use vstd::string::*;

use crate::dynamic::value_laws::{
    all_stripped, integer_text, lemma_back_stripped, lemma_core, lemma_integer_text,
};
use crate::error::{optional_text, retriable_code, Error, ErrorView};
use crate::text::{
    all_digits, begins_with, chars_of, decimal, find_from, find_last, find_text, find_text_last,
    first_at, has_prefix, is_white, last_at, last_of, lemma_decimal_reads, lemma_untrimmed,
    mentions, next_of, parse_signed, parse_within, stands_in, text_of, trim, trim_end, trimmed,
    trimmed_end, Strip,
};

verus! {

/// A `Code: N. DB::Exception: ...` rejection out of [`Error::BadResponse`].
#[derive(Debug, PartialEq, Eq)]
#[non_exhaustive]
pub struct ServerException {
    /// Signed on the wire; small positives in practice.
    pub code: i32,
    /// The trailing `(UPPERCASE_NAME)` tag; older and proxied errors omit it.
    pub name: Option<String>,
    /// Body without the code prefix, the marker, the name tag and the version.
    pub message: String,
    /// The `Stack trace:` section, when the server included one.
    pub stack_trace: Option<String>,
}

/// The mathematical value of a [`ServerException`].
pub struct ExceptionView {
    pub code: i32,
    pub name: Option<Seq<char>>,
    pub message: Seq<char>,
    pub stack_trace: Option<Seq<char>>,
}

impl View for ServerException {
    type V = ExceptionView;

    open spec fn view(&self) -> ExceptionView {
        ExceptionView {
            code: self.code,
            name: optional_text(self.name),
            message: self.message@,
            stack_trace: optional_text(self.stack_trace),
        }
    }
}

/// A text of the same characters.
fn copied(s: &Option<String>) -> (out: Option<String>)
    ensures
        optional_text(out) == optional_text(*s),
{
    match s {
        Some(t) => Some(t.clone()),
        None => None,
    }
}

impl Clone for ServerException {
    fn clone(&self) -> (out: ServerException)
        ensures
            out@ == self@,
    {
        ServerException {
            code: self.code,
            name: copied(&self.name),
            message: self.message.clone(),
            stack_trace: copied(&self.stack_trace),
        }
    }
}

/// The code that a text spells.
pub open spec fn spelled_code(s: Seq<char>) -> Option<i32> {
    match parse_within(trim(s, Strip::White), true, i32::MIN as int, i32::MAX as int) {
        Some(n) => Some(n as i32),
        None => None,
    }
}

/// The code in `Code: N.` at the front of a body.
pub open spec fn leading_code(body: Seq<char>) -> Option<i32> {
    if has_prefix(body, "Code: "@) {
        let rest = body.skip(6);
        let dot = next_of(rest, '.', 0);
        if dot < rest.len() {
            spelled_code(rest.take(dot as int))
        } else {
            None
        }
    } else {
        None
    }
}

/// What stands behind `Code: N.` at the front of a body.
pub open spec fn behind_code(body: Seq<char>) -> Seq<char> {
    body.skip(7 + next_of(body.skip(6), '.', 0) as int)
}

/// What stands behind the marker that `DB::Exception`, `DB::NetException` and
/// the rest share; behind the code, in a body without the marker.
pub open spec fn behind_marker(body: Seq<char>) -> Seq<char> {
    match first_at(body, "Exception: "@, 0) {
        Some(i) => trim(body.skip(i as int + 11), Strip::White),
        None => trim(behind_code(body), Strip::White),
    }
}

/// `s` without the version at its end.
pub open spec fn without_version(s: Seq<char>) -> Seq<char> {
    match last_at(s, "(version "@, s.len()) {
        Some(i) => trim_end(s.take(i as int), Strip::AnyOf(' ', '.', ',', ' ')),
        None => s,
    }
}

/// Whether `s` is made of upper-case letters, digits and underscores.
pub open spec fn is_shouty(s: Seq<char>) -> bool {
    forall|i: int|
        0 <= i < s.len() ==> 'A' <= #[trigger] s[i] <= 'Z' || '0' <= s[i] <= '9' || s[i] == '_'
}

/// Where the parenthesis of the name tag at the end of `s` opens. Only a SHOUTY
/// trailing paren run is a name tag.
pub open spec fn tag_at(s: Seq<char>) -> Option<nat> {
    if s.len() > 0 && s.last() == ')' {
        match last_of(s, '(', (s.len() - 1) as nat) {
            Some(i) if i + 2 < s.len() && is_shouty(s.subrange(i as int + 1, s.len() - 1)) => Some(
                i,
            ),
            _ => None,
        }
    } else {
        None
    }
}

/// `s` without the name tag at its end, and the name.
pub open spec fn split_tag(s: Seq<char>) -> (Seq<char>, Option<Seq<char>>) {
    match tag_at(s) {
        Some(i) => (
            trim_end(s.take(i as int), Strip::AnyOf(':', ' ', '.', ',')),
            Some(s.subrange(i as int + 1, s.len() - 1)),
        ),
        None => (s, None),
    }
}

/// `s` without the stack trace at its end, and the trace.
pub open spec fn split_trace(s: Seq<char>) -> (Seq<char>, Option<Seq<char>>) {
    match first_at(s, "Stack trace:"@, 0) {
        Some(i) => (
            trim_end(s.take(i as int), Strip::White),
            Some(trim(s.skip(i as int + 12), Strip::White)),
        ),
        None => (trim(s, Strip::White), None),
    }
}

/// The exception that a response body reports. A body that is a bare code is
/// one without a message; otherwise the code must stand in front, and a message
/// must be left.
pub open spec fn exception_of(body: Seq<char>) -> Option<ExceptionView> {
    match spelled_code(body) {
        Some(code) => Some(
            ExceptionView { code, name: None, message: seq![], stack_trace: None },
        ),
        None => match leading_code(body) {
            Some(code) => {
                let (rest, name) = split_tag(without_version(behind_marker(body)));
                let (message, stack_trace) = split_trace(rest);
                if message.len() > 0 {
                    Some(ExceptionView { code, name, message, stack_trace })
                } else {
                    None
                }
            },
            None => None,
        },
    }
}

fn parse_code(s: &[char]) -> (out: Option<i32>)
    ensures
        out == spelled_code(s@),
{
    match parse_signed(trimmed(s, Strip::White), i32::MIN as i128, i32::MAX as i128) {
        Some(n) => Some(n as i32),
        None => None,
    }
}

fn read_leading_code(body: &[char]) -> (out: Option<i32>)
    ensures
        out == leading_code(body@),
{
    if !begins_with(body, "Code: ") {
        return None;
    }
    proof {
        reveal_strlit("Code: ");
        assert(body@.subrange(6, body@.len() as int) =~= body@.skip(6));
    }
    let rest = vstd::slice::slice_subrange(body, 6, body.len());
    let dot: usize = find_from(rest, '.', 0);
    if dot >= rest.len() {
        return None;
    }
    assert(rest@.subrange(0, dot as int) =~= rest@.take(dot as int));
    parse_code(vstd::slice::slice_subrange(rest, 0, dot))
}

fn skip_marker<'a>(body: &'a [char]) -> (out: &'a [char])
    requires
        leading_code(body@) is Some,
    ensures
        out@ == behind_marker(body@),
{
    proof {
        reveal_strlit("Exception: ");
        reveal_strlit("Code: ");
    }
    let end: usize = body.len();
    match find_text(body, "Exception: ") {
        Some(i) => {
            assert(body@.subrange(i + 11, body@.len() as int) =~= body@.skip(i + 11));
            trimmed(vstd::slice::slice_subrange(body, i + 11, end), Strip::White)
        },
        None => {
            assert(body@.subrange(6, body@.len() as int) =~= body@.skip(6));
            let rest = vstd::slice::slice_subrange(body, 6, end);
            let dot: usize = find_from(rest, '.', 0);
            assert(rest@.subrange(dot + 1, rest@.len() as int) =~= behind_code(body@));
            trimmed(vstd::slice::slice_subrange(rest, dot + 1, rest.len()), Strip::White)
        },
    }
}

fn drop_version<'a>(s: &'a [char]) -> (out: &'a [char])
    ensures
        out@ == without_version(s@),
{
    match find_text_last(s, "(version ") {
        Some(i) => {
            assert(s@.subrange(0, i as int) =~= s@.take(i as int));
            trimmed_end(vstd::slice::slice_subrange(s, 0, i), Strip::AnyOf(' ', '.', ',', ' '))
        },
        None => s,
    }
}

fn all_shouty(s: &[char]) -> (yes: bool)
    ensures
        yes == is_shouty(s@),
{
    let mut i: usize = 0;
    while i < s.len()
        invariant
            i <= s.len(),
            forall|k: int|
                0 <= k < i ==> 'A' <= #[trigger] s@[k] <= 'Z' || '0' <= s@[k] <= '9' || s@[k]
                    == '_',
        decreases s.len() - i,
    {
        let c = s[i];
        if !(('A' <= c && c <= 'Z') || ('0' <= c && c <= '9') || c == '_') {
            return false;
        }
        i += 1;
    }
    true
}

fn find_tag(s: &[char]) -> (out: Option<usize>)
    ensures
        match out {
            Some(i) => tag_at(s@) == Some(i as nat) && i + 2 < s@.len(),
            None => tag_at(s@) is None,
        },
{
    if s.len() == 0 || s[s.len() - 1] != ')' {
        return None;
    }
    let head = vstd::slice::slice_subrange(s, 0, s.len() - 1);
    proof {
        lemma_last_of_prefix(s@, '(', (s@.len() - 1) as nat);
    }
    match find_last(head, '(') {
        Some(i) => {
            if i + 2 < s.len() && all_shouty(
                vstd::slice::slice_subrange(s, i + 1, s.len() - 1),
            ) {
                Some(i)
            } else {
                None
            }
        },
        None => None,
    }
}

proof fn lemma_last_of_prefix(s: Seq<char>, c: char, n: nat)
    requires
        n <= s.len(),
    ensures
        last_of(s.subrange(0, n as int), c, n) == last_of(s, c, n),
    decreases n,
{
    if n > 0 {
        let m = (n - 1) as nat;
        lemma_last_of_prefix(s, c, m);
        lemma_last_of_prefix(s.subrange(0, n as int), c, m);
        assert(s.subrange(0, n as int).subrange(0, m as int) =~= s.subrange(0, m as int));
    }
}

impl ServerException {
    /// `None` for any other [`Error`] variant, and for a body that does not
    /// open with `Code: N.` -- a proxy page or a bare status line.
    ///
    /// The client falls back to the exception code alone as the body when the
    /// real body is empty, not UTF-8, or fails mid-read; that is read too.
    #[must_use]
    pub fn parse(error: &Error) -> (out: Option<Self>)
        ensures
            match error@ {
                ErrorView::BadResponse(body) => match out {
                    Some(x) => exception_of(body) == Some(x@),
                    None => exception_of(body) is None,
                },
                _ => out is None,
            },
    {
        let text = match error {
            Error::BadResponse(body) => body,
            _ => return None,
        };
        let chars = chars_of(text.as_str());
        let body = chars.as_slice();
        if let Some(code) = parse_code(body) {
            let message = String::new();
            assert(message@ =~= seq![]);
            return Some(ServerException { code, name: None, message, stack_trace: None });
        }
        let code: i32 = match read_leading_code(body) {
            Some(code) => code,
            None => return None,
        };
        let described = drop_version(skip_marker(body));
        let end: usize = described.len();
        let mut without_name = described;
        let mut name: Option<String> = None;
        if let Some(i) = find_tag(described) {
            assert(described@.subrange(0, i as int) =~= described@.take(i as int));
            without_name = trimmed_end(
                vstd::slice::slice_subrange(described, 0, i),
                Strip::AnyOf(':', ' ', '.', ','),
            );
            name = Some(
                text_of(vstd::slice::slice_subrange(described, i + 1, end - 1)),
            );
        }
        proof {
            assert(split_tag(described@) == (without_name@, optional_text(name)));
            reveal_strlit("Stack trace:");
        }
        let end: usize = without_name.len();
        let (message, stack_trace) = match find_text(without_name, "Stack trace:") {
            Some(i) => {
                assert(without_name@.subrange(0, i as int) =~= without_name@.take(i as int));
                assert(without_name@.subrange(i + 12, without_name@.len() as int)
                    =~= without_name@.skip(i + 12));
                (
                    text_of(
                        trimmed_end(
                            vstd::slice::slice_subrange(without_name, 0, i),
                            Strip::White,
                        ),
                    ),
                    Some(
                        text_of(
                            trimmed(
                                vstd::slice::slice_subrange(without_name, i + 12, end),
                                Strip::White,
                            ),
                        ),
                    ),
                )
            },
            None => (text_of(trimmed(without_name, Strip::White)), None),
        };
        if message.as_str().is_empty() {
            return None;
        }
        Some(ServerException { code, name, message, stack_trace })
    }

    /// Off the same table as [`Error::is_retriable_code`].
    #[must_use]
    pub fn is_retriable(&self) -> (yes: bool)
        ensures
            yes == retriable_code(self@.code as int),
    {
        Error::is_retriable_code(self.code)
    }
}

/// An exception read from a response is retriable exactly when the same
/// exception is as an error of its own: both go by the code.
pub proof fn law_retriable_shares_the_table(
    code: i32,
    name: Option<Seq<char>>,
    message: Seq<char>,
    stack_trace: Option<Seq<char>>,
)
    ensures
        (ErrorView::ServerException { code, name, message, stack_trace }).retriable()
            == retriable_code((ExceptionView { code, name, message, stack_trace }).code as int),
{
}

// ---------------------------------------------------------------------------
// Bodies as servers write them
// ---------------------------------------------------------------------------

/// The body a server sends: code, marker, message, name and version.
pub open spec fn exception_body(
    code: i32,
    message: Seq<char>,
    name: Seq<char>,
    version: Seq<char>,
) -> Seq<char> {
    "Code: "@ + decimal(code as nat) + ". DB::"@ + "Exception: "@ + (message + ". ("@ + name + ") "@
        + "(version "@ + version + ")"@)
}

proof fn lemma_first_at(s: Seq<char>, part: Seq<char>, from: nat, p: nat)
    requires
        from <= p,
        stands_in(s, part, p as int),
        forall|i: int| from <= i < p ==> !stands_in(s, part, i),
    ensures
        first_at(s, part, from) == Some(p),
    decreases p - from,
{
    if from < p {
        assert(!stands_in(s, part, from as int));
        lemma_first_at(s, part, from + 1, p);
    }
}

proof fn lemma_last_at(s: Seq<char>, part: Seq<char>, from: nat, p: nat)
    requires
        p <= from,
        stands_in(s, part, p as int),
        forall|i: int| p < i <= from ==> !stands_in(s, part, i),
    ensures
        last_at(s, part, from) == Some(p),
    decreases from - p,
{
    if p < from {
        assert(!stands_in(s, part, from as int));
        lemma_last_at(s, part, (from - 1) as nat, p);
    }
}

proof fn lemma_next_of(s: Seq<char>, c: char, from: nat, p: nat)
    requires
        from <= p < s.len(),
        s[p as int] == c,
        forall|i: int| from <= i < p ==> #[trigger] s[i] != c,
    ensures
        next_of(s, c, from) == p,
    decreases p - from,
{
    if from < p {
        assert(s[from as int] != c);
        lemma_next_of(s, c, from + 1, p);
    }
}

proof fn lemma_last_of(s: Seq<char>, c: char, n: nat, p: nat)
    requires
        p < n <= s.len(),
        s[p as int] == c,
        forall|i: int| p < i < n ==> #[trigger] s[i] != c,
    ensures
        last_of(s, c, n) == Some(p),
    decreases n - p,
{
    if p + 1 < n {
        assert(s[n - 1] != c);
        lemma_last_of(s, c, (n - 1) as nat, p);
    }
}

proof fn lemma_code_read(code: i32, rest: Seq<char>)
    requires
        code >= 0,
        rest.len() > 0,
        rest[0] == '.',
        rest.last() == ')',
    ensures
        ({
            let body = "Code: "@ + decimal(code as nat) + rest;
            &&& spelled_code(body) is None
            &&& leading_code(body) == Some(code)
        }),
{
    reveal_strlit("Code: ");
    let d = decimal(code as nat);
    let body = "Code: "@ + d + rest;
    lemma_decimal_reads(code as nat);
    assert(body[0] == 'C');
    assert(body.last() == ')');
    lemma_untrimmed(body);
    assert(!all_digits(body));
    assert(body.take(6) =~= "Code: "@);
    let tail = body.skip(6);
    assert(tail =~= d + rest);
    assert forall|i: int| 0 <= i < d.len() implies #[trigger] tail[i] != '.' by {
        assert('0' <= d[i] <= '9');
    }
    assert(tail[d.len() as int] == '.');
    lemma_next_of(tail, '.', 0, d.len());
    assert(tail.take(d.len() as int) =~= d);
    assert('0' <= d[0] <= '9');
    assert('0' <= d[d.len() - 1] <= '9');
    lemma_untrimmed(d);
}

proof fn lemma_marker_found(head: Seq<char>, rest: Seq<char>)
    requires
        forall|i: int| 0 <= i < head.len() ==> #[trigger] head[i] != 'E',
        rest.len() > 0,
        !is_white(rest[0]),
        !is_white(rest.last()),
    ensures
        behind_marker(head + "Exception: "@ + rest) == rest,
{
    reveal_strlit("Exception: ");
    let marker = "Exception: "@;
    let body = head + marker + rest;
    let p = head.len();
    assert(body.subrange(p as int, p + marker.len() as int) =~= marker);
    assert forall|i: int| 0 <= i < p implies !stands_in(body, marker, i) by {
        if stands_in(body, marker, i) {
            assert(body.subrange(i, i + marker.len())[0] == body[i]);
            assert(body[i] == head[i]);
        }
    }
    lemma_first_at(body, marker, 0, p);
    assert(body.skip(p as int + 11) =~= rest);
    lemma_untrimmed(rest);
}

/// Behind the mark of a version stands no other.
proof fn lemma_no_later_mark(head: Seq<char>, version: Seq<char>, i: int)
    requires
        !mentions(version, "(version "@),
        i > head.len(),
    ensures
        !stands_in(head + "(version "@ + version + seq![')'], "(version "@, i),
{
    reveal_strlit("(version ");
    let mark = "(version "@;
    let s = head + mark + version + seq![')'];
    let p = head.len() as int;
    if stands_in(s, mark, i) {
        let t = s.subrange(i, i + 9);
        assert(t[0] == s[i]);
        assert(t[8] == s[i + 8]);
        if i < p + 9 {
            assert(s[i] == mark[i - p]);
        } else if i + 9 == s.len() {
            assert(s[i + 8] == ')');
        } else {
            let j = i - (p + 9);
            assert(version.subrange(j, j + 9) =~= t);
            lemma_mentioned(version, mark, 0, j as nat);
        }
    }
}

proof fn lemma_version_dropped(head: Seq<char>, version: Seq<char>)
    requires
        head.len() > 0,
        !Strip::AnyOf(' ', '.', ',', ' ').strips(head.last()),
        !mentions(version, "(version "@),
    ensures
        without_version(head + seq![' '] + "(version "@ + version + seq![')']) == head,
{
    let mark = "(version "@;
    let t = head + seq![' '];
    let s = t + mark + version + seq![')'];
    let p = t.len();
    assert(stands_in(s, mark, p as int)) by {
        assert(s.subrange(p as int, p + mark.len() as int) =~= mark);
    }
    assert forall|i: int| p < i <= s.len() implies !stands_in(s, mark, i) by {
        lemma_no_later_mark(t, version, i);
    }
    lemma_last_at(s, mark, s.len(), p);
    assert(s.take(p as int) =~= t);
    assert(t.last() == ' ');
    assert(t.drop_last() =~= head);
    let strip = Strip::AnyOf(' ', '.', ',', ' ');
    assert(trim_end(head, strip) == head);
}

proof fn lemma_mentioned(s: Seq<char>, part: Seq<char>, from: nat, p: nat)
    requires
        from <= p,
        stands_in(s, part, p as int),
    ensures
        first_at(s, part, from) is Some,
    decreases p - from,
{
    if from < p && !stands_in(s, part, from as int) {
        lemma_mentioned(s, part, from + 1, p);
    }
}

proof fn lemma_tag_split(message: Seq<char>, name: Seq<char>)
    requires
        message.len() > 0,
        !Strip::AnyOf(':', ' ', '.', ',').strips(message.last()),
        name.len() > 0,
        is_shouty(name),
    ensures
        split_tag(message + ". ("@ + name + ")"@) == (message, Some(name)),
{
    reveal_strlit(". (");
    reveal_strlit(")");
    let s = message + ". ("@ + name + ")"@;
    let i = message.len() + 2;
    assert(s.last() == ')');
    assert(s[i as int] == '(');
    assert forall|k: int| i < k < s.len() - 1 implies #[trigger] s[k] != '(' by {
        assert(s[k] == name[k - i - 1]);
    }
    lemma_last_of(s, '(', (s.len() - 1) as nat, i);
    assert(s.subrange(i as int + 1, s.len() - 1) =~= name);
    let strip = Strip::AnyOf(':', ' ', '.', ',');
    let t = s.take(i as int);
    assert(t.last() == ' ');
    assert(t.drop_last().last() == '.');
    assert(t.drop_last().drop_last() =~= message);
    assert(trim_end(message, strip) == message);
    assert(trim_end(t.drop_last(), strip) == message);
}

/// What a server reports is read back: from the body it sends, its own code,
/// the name of the error and the message, without the decoration between them.
pub proof fn law_exception_is_read_back(
    code: i32,
    message: Seq<char>,
    name: Seq<char>,
    version: Seq<char>,
)
    requires
        code >= 0,
        message.len() > 0,
        !is_white(message[0]),
        !is_white(message.last()),
        !Strip::AnyOf(':', ' ', '.', ',').strips(message.last()),
        !mentions(message, "Stack trace:"@),
        name.len() > 0,
        is_shouty(name),
        !mentions(version, "(version "@),
    ensures
        exception_of(exception_body(code, message, name, version)) == Some(
            ExceptionView { code, name: Some(name), message, stack_trace: None },
        ),
{
    reveal_strlit("Code: ");
    reveal_strlit(". DB::");
    reveal_strlit("Exception: ");
    reveal_strlit(")");
    reveal_strlit(") ");
    let d = decimal(code as nat);
    let tagged = message + ". ("@ + name + ")"@;
    let rest = message + ". ("@ + name + ") "@ + "(version "@ + version + ")"@;
    let body = exception_body(code, message, name, version);
    lemma_decimal_reads(code as nat);
    // The code.
    let behind = ". DB::"@ + "Exception: "@ + rest;
    assert(body =~= "Code: "@ + d + behind);
    assert(rest.last() == ')');
    assert(rest[0] == message[0]);
    assert(behind[0] == '.');
    assert(behind.last() == ')');
    lemma_code_read(code, behind);
    // The marker.
    let head = "Code: "@ + d + ". DB::"@;
    assert forall|i: int| 0 <= i < head.len() implies #[trigger] head[i] != 'E' by {
        if 6 <= i < 6 + d.len() {
            assert(head[i] == d[i - 6]);
            assert('0' <= d[i - 6] <= '9');
        }
    }
    assert(body =~= head + "Exception: "@ + rest);
    lemma_marker_found(head, rest);
    // The version, the name and the message.
    assert(rest =~= tagged + seq![' '] + "(version "@ + version + seq![')']);
    lemma_version_dropped(tagged, version);
    lemma_tag_split(message, name);
    lemma_untrimmed(message);
}

/// A body without the marker loses its code: what is read on is what stands
/// behind `Code: N.`, trimmed.
pub proof fn law_bare_body_loses_its_code(code: i32, rest: Seq<char>)
    requires
        code >= 0,
        !mentions("Code: "@ + decimal(code as nat) + "."@ + rest, "Exception: "@),
    ensures
        ({
            let body = "Code: "@ + decimal(code as nat) + "."@ + rest;
            &&& leading_code(body) == Some(code)
            &&& behind_marker(body) == trim(rest, Strip::White)
        }),
{
    reveal_strlit("Code: ");
    reveal_strlit(".");
    let d = decimal(code as nat);
    let body = "Code: "@ + d + "."@ + rest;
    lemma_decimal_reads(code as nat);
    assert(body.take(6) =~= "Code: "@);
    let tail = body.skip(6);
    assert(tail =~= d + "."@ + rest);
    assert forall|i: int| 0 <= i < d.len() implies #[trigger] tail[i] != '.' by {
        assert('0' <= d[i] <= '9');
    }
    assert(tail[d.len() as int] == '.');
    lemma_next_of(tail, '.', 0, d.len());
    assert(tail.take(d.len() as int) =~= d);
    assert('0' <= d[0] <= '9');
    assert('0' <= d[d.len() - 1] <= '9');
    lemma_untrimmed(d);
    assert(behind_code(body) =~= rest);
}

/// A body that is a number, blanks around it aside, is that code and nothing
/// more.
pub proof fn law_a_bare_number_is_a_code(a: Seq<char>, code: i32, b: Seq<char>)
    requires
        all_stripped(a, Strip::White),
        all_stripped(b, Strip::White),
    ensures
        exception_of(a + integer_text(code as int) + b) == Some(
            ExceptionView { code, name: None, message: seq![], stack_trace: None },
        ),
{
    let s = integer_text(code as int);
    lemma_integer_text(code as int);
    assert('0' <= s[0] <= '9' || s[0] == '-');
    assert('0' <= s[s.len() - 1] <= '9' || s[s.len() - 1] == '-');
    lemma_core(a, s, b, Strip::White);
}

proof fn lemma_trace_found(message: Seq<char>, rest: Seq<char>)
    requires
        !mentions(message + seq![' '] + "Stack trace"@, "Stack trace:"@),
    ensures
        first_at(message + seq![' '] + "Stack trace:"@ + rest, "Stack trace:"@, 0) == Some(
            message.len() + 1,
        ),
{
    reveal_strlit("Stack trace:");
    reveal_strlit("Stack trace");
    let mark = "Stack trace:"@;
    let t = message + seq![' '] + "Stack trace"@;
    let said = message + seq![' '] + mark + rest;
    let p = message.len() + 1;
    assert(mark.len() == 12);
    assert("Stack trace"@ =~= mark.drop_last());
    assert(t =~= said.take(p as int + 11));
    assert(stands_in(said, mark, p as int)) by {
        assert(said.subrange(p as int, p + mark.len() as int) =~= mark);
    }
    assert forall|i: int| 0 <= i < p implies !stands_in(said, mark, i) by {
        if stands_in(said, mark, i) {
            assert(said.subrange(i, i + 12) =~= t.subrange(i, i + 12));
            lemma_mentioned(t, mark, 0, i as nat);
        }
    }
    lemma_first_at(said, mark, 0, p);
}

proof fn lemma_trace_split(message: Seq<char>, trace: Seq<char>)
    requires
        message.len() > 0,
        !is_white(message.last()),
        !mentions(message + seq![' '] + "Stack trace"@, "Stack trace:"@),
        trace.len() > 0,
        !is_white(trace[0]),
        !is_white(trace.last()),
    ensures
        split_trace(message + seq![' '] + "Stack trace:"@ + seq![' '] + trace) == (
            message,
            Some(trace),
        ),
{
    let mark = "Stack trace:"@;
    let one = seq![' '];
    let said = message + one + mark + one + trace;
    let p = message.len() + 1;
    assert(mark.len() == 12) by {
        reveal_strlit("Stack trace:");
    }
    assert(said =~= message + one + mark + (one + trace));
    lemma_trace_found(message, one + trace);
    assert(said.take(p as int) =~= message + one);
    assert(said.skip(p as int + 12) =~= one + trace + seq![]);
    assert(all_stripped(one, Strip::White));
    lemma_core(one, trace, seq![], Strip::White);
    lemma_back_stripped(message, one, Strip::White);
    assert(trim_end(message, Strip::White) == message);
}

/// A stack trace behind the message is read as such, and leaves the message and
/// the code as they are; without a name tag there is no name.
pub proof fn law_stack_trace_is_read_back(
    code: i32,
    message: Seq<char>,
    trace: Seq<char>,
    version: Seq<char>,
)
    requires
        code >= 0,
        message.len() > 0,
        !is_white(message[0]),
        !is_white(message.last()),
        !mentions(message + seq![' '] + "Stack trace"@, "Stack trace:"@),
        trace.len() > 0,
        !is_white(trace[0]),
        !is_white(trace.last()),
        !Strip::AnyOf(' ', '.', ',', ' ').strips(trace.last()),
        trace.last() != ')',
        !mentions(version, "(version "@),
    ensures
        exception_of(
            "Code: "@ + decimal(code as nat) + ". DB::"@ + "Exception: "@ + (message + seq![' ']
                + "Stack trace:"@ + seq![' '] + trace + seq![' '] + "(version "@ + version + seq![
                ')',
            ]),
        ) == Some(ExceptionView { code, name: None, message, stack_trace: Some(trace) }),
{
    reveal_strlit("Code: ");
    reveal_strlit(". DB::");
    reveal_strlit("Exception: ");
    let d = decimal(code as nat);
    let mark = "Stack trace:"@;
    let one = seq![' '];
    let said = message + one + mark + one + trace;
    let rest = said + one + "(version "@ + version + seq![')'];
    assert(rest =~= message + one + mark + one + trace + one + "(version "@ + version + seq![')']);
    let body = "Code: "@ + d + ". DB::"@ + "Exception: "@ + rest;
    lemma_decimal_reads(code as nat);
    let behind = ". DB::"@ + "Exception: "@ + rest;
    assert(body =~= "Code: "@ + d + behind);
    assert(rest.last() == ')');
    assert(rest[0] == message[0]);
    assert(behind[0] == '.');
    assert(behind.last() == ')');
    lemma_code_read(code, behind);
    let head = "Code: "@ + d + ". DB::"@;
    assert forall|i: int| 0 <= i < head.len() implies #[trigger] head[i] != 'E' by {
        if 6 <= i < 6 + d.len() {
            assert(head[i] == d[i - 6]);
            assert('0' <= d[i - 6] <= '9');
        }
    }
    assert(body =~= head + "Exception: "@ + rest);
    lemma_marker_found(head, rest);
    assert(said.last() == trace.last());
    lemma_version_dropped(said, version);
    assert(tag_at(said) is None);
    lemma_trace_split(message, trace);
}

} // verus!
