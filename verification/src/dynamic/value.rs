//! JSON values as the row encoder reads them.

use vstd::prelude::*;
use vstd::string::*;

use crate::dynamic::answers::Float;

verus! {

/// What a JSON number is known as.
#[derive(Debug)]
pub struct Number {
    /// The number, where it is a 64-bit unsigned integer.
    pub unsigned: Option<u64>,
    /// The number, where it is a 64-bit signed integer.
    pub signed: Option<i64>,
    /// The nearest double.
    pub float: Option<Float>,
    /// The number as JSON text.
    pub text: String,
}

/// The mathematical value of a [`Number`].
pub struct NumberView {
    pub unsigned: Option<u64>,
    pub signed: Option<i64>,
    pub float: Option<Float>,
    pub text: Seq<char>,
}

impl View for Number {
    type V = NumberView;

    open spec fn view(&self) -> NumberView {
        NumberView {
            unsigned: self.unsigned,
            signed: self.signed,
            float: self.float,
            text: self.text@,
        }
    }
}

/// A JSON value. The entries of an object stand in the order in which they are
/// written.
#[derive(Debug)]
pub enum Value {
    Null,
    Bool(bool),
    Number(Number),
    String(String),
    Array(Vec<Value>),
    Object(Vec<(String, Value)>),
}

/// The mathematical value of a [`Value`].
pub enum Json {
    Null,
    Bool(bool),
    Number(NumberView),
    String(Seq<char>),
    Array(Seq<Json>),
    Object(Seq<(Seq<char>, Json)>),
}

impl Value {
    /// The mathematical value.
    pub open spec fn json(self) -> Json
        decreases self,
    {
        match self {
            Value::Null => Json::Null,
            Value::Bool(b) => Json::Bool(b),
            Value::Number(n) => Json::Number(n@),
            Value::String(s) => Json::String(s@),
            Value::Array(vs) => Json::Array(
                Seq::new(
                    vs@.len(),
                    |i: int|
                        if 0 <= i < vs@.len() {
                            vs@[i].json()
                        } else {
                            Json::Null
                        },
                ),
            ),
            Value::Object(es) => Json::Object(
                Seq::new(
                    es@.len(),
                    |i: int|
                        if 0 <= i < es@.len() {
                            (es@[i].0@, es@[i].1.json())
                        } else {
                            (seq![], Json::Null)
                        },
                ),
            ),
        }
    }
}

impl View for Value {
    type V = Json;

    open spec fn view(&self) -> Json {
        self.json()
    }
}

/// The mathematical values of a list.
pub open spec fn jsons(vs: Seq<Value>) -> Seq<Json> {
    vs.map_values(|v: Value| v.json())
}

/// The mathematical values of the entries of an object.
pub open spec fn entries(es: Seq<(String, Value)>) -> Seq<(Seq<char>, Json)> {
    es.map_values(|e: (String, Value)| (e.0@, e.1.json()))
}

/// An array is made of the values of its list.
pub proof fn lemma_jsons(vs: Vec<Value>)
    ensures
        Value::Array(vs)@ == Json::Array(jsons(vs@)),
{
    assert(Value::Array(vs).json()->Array_0 =~= jsons(vs@));
}

/// An object is made of its entries.
pub proof fn lemma_entries(es: Vec<(String, Value)>)
    ensures
        Value::Object(es)@ == Json::Object(entries(es@)),
{
    assert(Value::Object(es).json()->Object_0 =~= entries(es@));
}

/// The lower-case hexadecimal digit `d`.
pub open spec fn hex_char(d: nat) -> char {
    if d < 10 {
        ('0' as nat + d) as char
    } else {
        ('a' as nat + d - 10) as char
    }
}

/// The escape of the control character `n`.
pub open spec fn control_escape(n: nat) -> Seq<char> {
    seq!['\\', 'u', '0', '0', hex_char(n / 16), hex_char(n % 16)]
}

/// A character as it stands in a JSON string.
pub open spec fn json_char(c: char) -> Seq<char> {
    if c == '"' {
        seq!['\\', '"']
    } else if c == '\\' {
        seq!['\\', '\\']
    } else if c == '\u{8}' {
        seq!['\\', 'b']
    } else if c == '\u{c}' {
        seq!['\\', 'f']
    } else if c == '\n' {
        seq!['\\', 'n']
    } else if c == '\r' {
        seq!['\\', 'r']
    } else if c == '\t' {
        seq!['\\', 't']
    } else if '\u{0}' <= c <= '\u{1f}' {
        control_escape(c as nat)
    } else {
        seq![c]
    }
}

/// The characters of `s` as they stand in a JSON string.
pub open spec fn json_chars(s: Seq<char>) -> Seq<char>
    decreases s.len(),
{
    if s.len() == 0 {
        seq![]
    } else {
        json_chars(s.drop_last()) + json_char(s.last())
    }
}

/// `s` as a JSON string.
pub open spec fn json_string(s: Seq<char>) -> Seq<char> {
    seq!['"'] + json_chars(s) + seq!['"']
}

/// `serde_json::to_string` of a text: the text in double quotes, with quotes,
/// backslashes and control characters escaped. It does not fail on a text.
#[verifier::external_body]
fn quoted(s: &str) -> (out: String)
    ensures
        out@ == json_string(s@),
{
    serde_json::to_string(s).unwrap_or_default()
}

/// The compact JSON text of a value.
pub open spec fn compact(v: Json) -> Seq<char>
    decreases v,
{
    match v {
        Json::Null => "null"@,
        Json::Bool(b) => if b {
            "true"@
        } else {
            "false"@
        },
        Json::Number(n) => n.text,
        Json::String(s) => json_string(s),
        Json::Array(vs) => seq!['['] + compact_items(vs) + seq![']'],
        Json::Object(es) => seq!['{'] + compact_entries(es) + seq!['}'],
    }
}

/// What separates item `n` from the one before it.
pub open spec fn comma(n: nat) -> Seq<char> {
    if n == 0 {
        seq![]
    } else {
        seq![',']
    }
}

/// The compact JSON texts of the items of an array, separated by commas.
pub open spec fn compact_items(vs: Seq<Json>) -> Seq<char>
    decreases vs,
{
    if vs.len() == 0 {
        seq![]
    } else {
        let n = (vs.len() - 1) as nat;
        compact_items(vs.subrange(0, n as int)) + comma(n) + compact(vs[n as int])
    }
}

/// The compact JSON texts of the entries of an object, separated by commas.
pub open spec fn compact_entries(es: Seq<(Seq<char>, Json)>) -> Seq<char>
    decreases es,
{
    if es.len() == 0 {
        seq![]
    } else {
        let n = (es.len() - 1) as nat;
        compact_entries(es.subrange(0, n as int)) + comma(n) + json_string(es[n as int].0)
            + seq![':'] + compact(es[n as int].1)
    }
}

/// Append the compact JSON text of a value.
pub fn push_compact(out: &mut String, v: &Value)
    ensures
        final(out)@ == old(out)@ + compact(v@),
    decreases v,
{
    match v {
        Value::Null => {
            out.append("null");
        },
        Value::Bool(b) => {
            if *b {
                out.append("true");
            } else {
                out.append("false");
            }
        },
        Value::Number(n) => {
            out.append(n.text.as_str());
        },
        Value::String(s) => {
            out.append(quoted(s.as_str()).as_str());
        },
        Value::Array(vs) => {
            let ghost all = jsons(vs@);
            proof {
                lemma_jsons(*vs);
            }
            out.push('[');
            let mut i: usize = 0;
            proof {
                assert(all.subrange(0, 0) =~= seq![]);
                assert(out@ =~= old(out)@ + (seq!['['] + compact_items(all.subrange(0, 0))));
            }
            while i < vs.len()
                invariant
                    i <= vs.len(),
                    all == jsons(vs@),
                    decreases_to!(v => vs),
                    out@ == old(out)@ + (seq!['['] + compact_items(all.subrange(0, i as int))),
                decreases vs.len() - i,
            {
                let ghost before = out@;
                if i > 0 {
                    out.push(',');
                }
                proof {
                    assert(out@ =~= before + comma(i as nat));
                    assert(all.subrange(0, i + 1).subrange(0, i as int) =~= all.subrange(
                        0,
                        i as int,
                    ));
                    assert(all.subrange(0, i + 1)[i as int] == vs@[i as int]@);
                }
                push_compact(out, &vs[i]);
                i += 1;
                assert(out@ =~= old(out)@ + (seq!['['] + compact_items(
                    all.subrange(0, i as int),
                )));
            }
            out.push(']');
            proof {
                assert(all.subrange(0, i as int) =~= all);
                assert(out@ =~= old(out)@ + compact(v@));
            }
        },
        Value::Object(es) => {
            let ghost all = entries(es@);
            proof {
                lemma_entries(*es);
            }
            out.push('{');
            let mut i: usize = 0;
            proof {
                assert(all.subrange(0, 0) =~= seq![]);
                assert(out@ =~= old(out)@ + (seq!['{'] + compact_entries(all.subrange(0, 0))));
            }
            while i < es.len()
                invariant
                    i <= es.len(),
                    all == entries(es@),
                    decreases_to!(v => es),
                    out@ == old(out)@ + (seq!['{'] + compact_entries(all.subrange(0, i as int))),
                decreases es.len() - i,
            {
                let ghost before = out@;
                if i > 0 {
                    out.push(',');
                }
                proof {
                    assert(out@ =~= before + comma(i as nat));
                    assert(all.subrange(0, i + 1).subrange(0, i as int) =~= all.subrange(
                        0,
                        i as int,
                    ));
                    assert(all.subrange(0, i + 1)[i as int] == (es@[i as int].0@, es@[i as int].1@));
                }
                let entry = &es[i];
                out.append(quoted(entry.0.as_str()).as_str());
                out.push(':');
                push_compact(out, &entry.1);
                i += 1;
                assert(out@ =~= old(out)@ + (seq!['{'] + compact_entries(
                    all.subrange(0, i as int),
                )));
            }
            out.push('}');
            proof {
                assert(all.subrange(0, i as int) =~= all);
                assert(out@ =~= old(out)@ + compact(v@));
            }
        },
    }
}

/// The text a value is written as where a column takes text: a string as it
/// is, nothing for null, and JSON for the rest.
pub open spec fn plain_text(v: Json) -> Seq<char> {
    match v {
        Json::String(s) => s,
        Json::Null => seq![],
        _ => compact(v),
    }
}

/// The text a value is written as where a column takes text.
pub fn value_to_str(v: &Value) -> (out: String)
    ensures
        out@ == plain_text(v@),
{
    match v {
        Value::String(s) => s.clone(),
        Value::Null => {
            let out = String::new();
            assert(out@ =~= seq![]);
            out
        },
        _ => {
            let mut out = String::new();
            push_compact(&mut out, v);
            assert(out@ =~= compact(v@));
            out
        },
    }
}

/// The value of the first entry under `name`.
pub open spec fn member(es: Seq<(Seq<char>, Json)>, name: Seq<char>) -> Option<Json>
    decreases es.len(),
{
    if es.len() == 0 {
        None
    } else {
        match member(es.drop_last(), name) {
            Some(v) => Some(v),
            None => if es.last().0 == name {
                Some(es.last().1)
            } else {
                None
            },
        }
    }
}

} // verus!
