//! The SQL that dynamic inserts run.

use vstd::prelude::*;
use vstd::string::*;

use crate::text::{chars_of, text_of};

verus! {

/// Whether a character is escaped inside quotes.
pub open spec fn is_escaped(c: char) -> bool {
    c == '\\' || c == '\'' || c == '`' || c == '\t' || c == '\n'
}

/// `s` as it stands inside quotes: a backslash before every character that
/// would end the quotes or change the meaning of what follows.
pub open spec fn escaped(s: Seq<char>) -> Seq<char>
    decreases s.len(),
{
    if s.len() == 0 {
        seq![]
    } else if is_escaped(s.last()) {
        escaped(s.drop_last()).push('\\').push(s.last())
    } else {
        escaped(s.drop_last()).push(s.last())
    }
}

/// A backtick-quoted identifier.
pub open spec fn identifier(s: Seq<char>) -> Seq<char> {
    seq!['`'] + escaped(s) + seq!['`']
}

/// A quoted string literal.
pub open spec fn literal(s: Seq<char>) -> Seq<char> {
    seq!['\''] + escaped(s) + seq!['\'']
}

/// `clickhouse::_priv::sql_escape_identifier`, written to a string: backslash,
/// single quote, backtick, tab and newline get a backslash before them, and the
/// whole is put between backticks. Writing to a string does not fail.
#[verifier::external_body]
fn sql_escape_identifier(value: &str) -> (out: String)
    ensures
        out@ == identifier(value@),
{
    let mut out = String::new();
    let _ = clickhouse::_priv::sql_escape_identifier(value, &mut out);
    out
}

/// Backtick-quote a SQL identifier using the client's own escaper, so an
/// identifier is quoted the same way here and in `clickhouse::Client`.
pub fn escape_ident(name: &str) -> (out: String)
    ensures
        out@ == identifier(name@),
{
    sql_escape_identifier(name)
}

/// Quote `value` as a string literal via the client's identifier escaper --
/// what it writes between the delimiters escapes `'` too, so this is exactly
/// what `Query::bind` produces. The literal has to be in the SQL text: the
/// native protocol carries `{name:Type}` parameters in a wire section the TCP
/// writer does not emit (code 456, `Substitution 'x' is not set`).
pub fn quote_literal(value: &str) -> (out: String)
    ensures
        out@ == literal(value@),
{
    let quoted = sql_escape_identifier(value);
    let chars = chars_of(quoted.as_str());
    let inner = text_of(vstd::slice::slice_subrange(chars.as_slice(), 1, chars.len() - 1));
    let mut out = "'".to_owned();
    out.append(inner.as_str());
    out.append("'");
    proof {
        reveal_strlit("'");
        assert(inner@ =~= escaped(value@));
        assert(out@ =~= literal(value@));
    }
    out
}

/// The `system.columns` projection of a table.
pub open spec fn columns_query(database: Seq<char>, table: Seq<char>) -> Seq<char> {
    "SELECT name, type AS col_type, default_kind FROM system.columns WHERE database = "@ + literal(
        database,
    ) + " AND table = "@ + literal(table) + " ORDER BY position"@
}

/// The `system.columns` projection a schema is read from, on either transport.
pub fn system_columns_sql(database: &str, table: &str) -> (out: String)
    ensures
        out@ == columns_query(database@, table@),
{
    let mut out =
        "SELECT name, type AS col_type, default_kind FROM system.columns WHERE database = ".to_owned();
    out.append(quote_literal(database).as_str());
    out.append(" AND table = ");
    out.append(quote_literal(table).as_str());
    out.append(" ORDER BY position");
    out
}

/// What quotes hold, read back: a backslash stands for the character behind
/// it. `None` where it is followed by nothing, or where a quote stands bare.
pub open spec fn unescaped(s: Seq<char>) -> Option<Seq<char>>
    decreases s.len(),
{
    if s.len() == 0 {
        Some(seq![])
    } else if s[0] == '\\' {
        if s.len() == 1 {
            None
        } else {
            match unescaped(s.skip(2)) {
                Some(rest) => Some(seq![s[1]] + rest),
                None => None,
            }
        }
    } else if is_escaped(s[0]) {
        None
    } else {
        match unescaped(s.skip(1)) {
            Some(rest) => Some(seq![s[0]] + rest),
            None => None,
        }
    }
}

/// The escaped form of the first character, then of the rest.
proof fn lemma_escaped_first(s: Seq<char>)
    requires
        s.len() > 0,
    ensures
        escaped(s) == (if is_escaped(s[0]) {
            seq!['\\', s[0]]
        } else {
            seq![s[0]]
        }) + escaped(s.skip(1)),
    decreases s.len(),
{
    if s.len() > 1 {
        let before = s.drop_last();
        lemma_escaped_first(before);
        assert(before.skip(1) =~= s.skip(1).drop_last());
        assert(s.skip(1).last() == s.last());
        assert(before[0] == s[0]);
        let head = if is_escaped(s[0]) {
            seq!['\\', s[0]]
        } else {
            seq![s[0]]
        };
        assert(escaped(s) =~= head + escaped(s.skip(1)));
    } else {
        assert(s.skip(1) =~= seq![]);
        assert(s.drop_last() =~= seq![]);
        assert(s.last() == s[0]);
        let head = if is_escaped(s[0]) {
            seq!['\\', s[0]]
        } else {
            seq![s[0]]
        };
        assert(escaped(s) =~= head + escaped(s.skip(1)));
    }
}

/// No text can end the quotes it is put between, and what is read from between
/// them is the text that was put there.
pub proof fn law_escape_round_trip(s: Seq<char>)
    ensures
        unescaped(escaped(s)) == Some(s),
    decreases s.len(),
{
    if s.len() > 0 {
        let rest = s.skip(1);
        lemma_escaped_first(s);
        law_escape_round_trip(rest);
        let e = escaped(s);
        if is_escaped(s[0]) {
            assert(e[0] == '\\' && e[1] == s[0]);
            assert(e.skip(2) =~= escaped(rest));
        } else {
            assert(e[0] == s[0]);
            assert(e.skip(1) =~= escaped(rest));
        }
        assert(seq![s[0]] + rest =~= s);
    }
}

/// Escaping goes character by character: a backslash, a single quote, a
/// backtick, a tab and a newline get a backslash before them, and every other
/// character stands for itself.
pub proof fn law_characters_are_escaped_alone(a: Seq<char>, c: char, b: Seq<char>)
    ensures
        escaped(a + b) == escaped(a) + escaped(b),
        escaped(seq![c]) == if c == '\\' || c == '\'' || c == '`' || c == '\t' || c == '\n' {
            seq!['\\', c]
        } else {
            seq![c]
        },
    decreases b.len(),
{
    let one = seq![c];
    assert(one.last() == c);
    assert(one.drop_last() =~= seq![]);
    assert(escaped(one.drop_last()) =~= seq![]);
    if is_escaped(c) {
        assert(escaped(one) =~= seq!['\\', c]);
    } else {
        assert(escaped(one) =~= seq![c]);
    }
    if b.len() > 0 {
        law_characters_are_escaped_alone(a, c, b.drop_last());
        assert((a + b).drop_last() =~= a + b.drop_last());
        assert((a + b).last() == b.last());
        assert(escaped(a + b) =~= escaped(a) + escaped(b));
    } else {
        assert(a + b =~= a);
        assert(escaped(a + b) =~= escaped(a) + escaped(b));
    }
}

/// A quoted identifier stands between backticks and a quoted literal between
/// single quotes, and each is read back as what was quoted.
pub proof fn law_quotes_are_read_back(s: Seq<char>)
    ensures
        identifier(s).len() >= 2,
        identifier(s)[0] == '`',
        identifier(s).last() == '`',
        unescaped(identifier(s).subrange(1, identifier(s).len() - 1)) == Some(s),
        literal(s).len() >= 2,
        literal(s)[0] == '\'',
        literal(s).last() == '\'',
        unescaped(literal(s).subrange(1, literal(s).len() - 1)) == Some(s),
{
    law_escape_round_trip(s);
    assert(identifier(s).subrange(1, identifier(s).len() - 1) =~= escaped(s));
    assert(literal(s).subrange(1, literal(s).len() - 1) =~= escaped(s));
}

/// The query for the columns of a table asks for those of that table in that
/// database, and for them in their order: the database and the table stand in
/// it, each behind its own name, as literals that read back as they were given.
pub proof fn law_the_query_names_database_and_table(database: Seq<char>, table: Seq<char>)
    ensures
        exists|d: Seq<char>, t: Seq<char>|
            #![trigger unescaped(d), unescaped(t)]
            {
                &&& unescaped(d) == Some(database)
                &&& unescaped(t) == Some(table)
                &&& columns_query(database, table)
                    == "SELECT name, type AS col_type, default_kind FROM system.columns WHERE database = "@
                    + (seq!['\''] + d + seq!['\'']) + " AND table = "@ + (seq!['\''] + t
                    + seq!['\'']) + " ORDER BY position"@
            },
{
    law_escape_round_trip(database);
    law_escape_round_trip(table);
    let d = escaped(database);
    let t = escaped(table);
    assert(unescaped(d) == Some(database) && unescaped(t) == Some(table));
}

} // verus!
