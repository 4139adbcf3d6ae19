//! Error types for dynamic (schema-driven) inserts.

use vstd::prelude::*;
use vstd::string::*;

use crate::dynamic::answers::{Question, QuestionView};
use crate::error::{Error, ErrorView};

verus! {

/// Errors specific to dynamic schema-driven inserts.
///
/// `#[non_exhaustive]`: a caller matching on this must carry a `_` arm. The
/// variants stay constructible so a consumer can build one in its own tests.
#[derive(Debug)]
#[non_exhaustive]
pub enum DynamicError {
    /// Column type string could not be parsed.
    UnsupportedType {
        /// Column the type was declared on.
        column: String,
        /// The type string as `system.columns` reported it.
        type_str: String,
    },
    /// Value could not be encoded for the target column type.
    EncodingError {
        /// Column the value belonged to; empty for a whole-row failure.
        column: String,
        /// What the encoder could not do.
        message: String,
    },
    /// Schema mismatch detected -- server rejected the insert. Retriable once
    /// the cached schema is invalidated.
    SchemaMismatch {
        /// Fully qualified `database.table`.
        table: String,
        /// The server's rejection text.
        message: String,
    },
    /// Schema fetch from `system.columns` failed. Retriable: a cold cache
    /// after a restart hits this on a transport blip.
    SchemaFetch {
        /// Fully qualified `database.table`.
        table: String,
        /// The query failure, kept typed so a caller can classify it.
        source: Error,
    },
    /// Table has no columns (or does not exist). Retriable against a cluster
    /// that is still replicating the DDL.
    EmptySchema {
        /// Fully qualified `database.table`.
        table: String,
    },
    /// A value needs an answer the caller has not supplied yet; see
    /// [`crate::dynamic::answers::Answers`].
    AnswerNeeded(Question),
}

/// The mathematical value of a [`DynamicError`].
pub enum DynamicErrorView {
    UnsupportedType { column: Seq<char>, type_str: Seq<char> },
    EncodingError { column: Seq<char>, message: Seq<char> },
    SchemaMismatch { table: Seq<char>, message: Seq<char> },
    SchemaFetch { table: Seq<char>, source: ErrorView },
    EmptySchema { table: Seq<char> },
    AnswerNeeded(QuestionView),
}

impl View for DynamicError {
    type V = DynamicErrorView;

    open spec fn view(&self) -> DynamicErrorView {
        match *self {
            DynamicError::UnsupportedType { column, type_str } => {
                DynamicErrorView::UnsupportedType { column: column@, type_str: type_str@ }
            },
            DynamicError::EncodingError { column, message } => {
                DynamicErrorView::EncodingError { column: column@, message: message@ }
            },
            DynamicError::SchemaMismatch { table, message } => {
                DynamicErrorView::SchemaMismatch { table: table@, message: message@ }
            },
            DynamicError::SchemaFetch { table, source } => {
                DynamicErrorView::SchemaFetch { table: table@, source: source@ }
            },
            DynamicError::EmptySchema { table } => DynamicErrorView::EmptySchema { table: table@ },
            DynamicError::AnswerNeeded(q) => DynamicErrorView::AnswerNeeded(q@),
        }
    }
}

impl DynamicErrorView {
    /// The text that reports the error.
    pub open spec fn message(self) -> Seq<char> {
        match self {
            DynamicErrorView::UnsupportedType { column, type_str } => "unsupported type '"@
                + type_str + "' for column '"@ + column + "'"@,
            DynamicErrorView::EncodingError { column, message } => "encoding error for column '"@
                + column + "': "@ + message,
            DynamicErrorView::SchemaMismatch { table, message } => "schema mismatch for table '"@
                + table + "': "@ + message,
            DynamicErrorView::SchemaFetch { table, source } => "failed to fetch schema for '"@
                + table + "': "@ + source.message(),
            DynamicErrorView::EmptySchema { table } => "table '"@ + table
                + "' has no columns or does not exist"@,
            DynamicErrorView::AnswerNeeded(_) => "an answer has not been supplied"@,
        }
    }
}

impl DynamicError {
    /// The text that reports the error.
    pub fn message(&self) -> (out: String)
        ensures
            out@ == self@.message(),
    {
        match self {
            DynamicError::UnsupportedType { column, type_str } => {
                let mut text = "unsupported type '".to_owned();
                text.append(type_str.as_str());
                text.append("' for column '");
                text.append(column.as_str());
                text.append("'");
                text
            },
            DynamicError::EncodingError { column, message } => {
                let mut text = "encoding error for column '".to_owned();
                text.append(column.as_str());
                text.append("': ");
                text.append(message.as_str());
                text
            },
            DynamicError::SchemaMismatch { table, message } => {
                let mut text = "schema mismatch for table '".to_owned();
                text.append(table.as_str());
                text.append("': ");
                text.append(message.as_str());
                text
            },
            DynamicError::SchemaFetch { table, source } => {
                let mut text = "failed to fetch schema for '".to_owned();
                text.append(table.as_str());
                text.append("': ");
                text.append(source.message().as_str());
                text
            },
            DynamicError::EmptySchema { table } => {
                let mut text = "table '".to_owned();
                text.append(table.as_str());
                text.append("' has no columns or does not exist");
                text
            },
            DynamicError::AnswerNeeded(_) => "an answer has not been supplied".to_owned(),
        }
    }
}

/// The error of a value that column `col` cannot take.
pub open spec fn refusal(col: Seq<char>, message: Seq<char>) -> DynamicErrorView {
    DynamicErrorView::EncodingError { column: col, message }
}

/// The error of a value that column `col` cannot take.
pub fn enc_err(col: &str, message: &str) -> (e: DynamicError)
    ensures
        e@ == refusal(col@, message@),
{
    DynamicError::EncodingError { column: col.to_owned(), message: message.to_owned() }
}

/// Every message names the column or the table that it is about, between single
/// quotes, and ends with what went wrong where that was said.
pub proof fn law_messages_name_their_subject(e: DynamicErrorView)
    ensures
        match e {
            DynamicErrorView::UnsupportedType { column, type_str } => exists|a: Seq<char>, b: Seq<char>,
                c: Seq<char>|
                e.message() == #[trigger] (a + quoted_name(type_str) + b + quoted_name(column) + c),
            DynamicErrorView::EncodingError { column, message } => exists|a: Seq<char>, b: Seq<char>|
                e.message() == #[trigger] (a + quoted_name(column) + b + message),
            DynamicErrorView::SchemaMismatch { table, message } => exists|a: Seq<char>, b: Seq<char>|
                e.message() == #[trigger] (a + quoted_name(table) + b + message),
            DynamicErrorView::SchemaFetch { table, source } => exists|a: Seq<char>, b: Seq<char>|
                e.message() == #[trigger] (a + quoted_name(table) + b + source.message()),
            DynamicErrorView::EmptySchema { table } => exists|a: Seq<char>, b: Seq<char>|
                e.message() == #[trigger] (a + quoted_name(table) + b),
            DynamicErrorView::AnswerNeeded(_) => true,
        },
{
    reveal_strlit("unsupported type '");
    reveal_strlit("' for column '");
    reveal_strlit("'");
    reveal_strlit("encoding error for column '");
    reveal_strlit("': ");
    reveal_strlit("schema mismatch for table '");
    reveal_strlit("failed to fetch schema for '");
    reveal_strlit("table '");
    reveal_strlit("' has no columns or does not exist");
    match e {
        DynamicErrorView::UnsupportedType { column, type_str } => {
            let a = "unsupported type '"@.drop_last();
            let b = "' for column '"@.drop_first().drop_last();
            let c = Seq::<char>::empty();
            assert(e.message() =~= a + quoted_name(type_str) + b + quoted_name(column) + c);
        },
        DynamicErrorView::EncodingError { column, message } => {
            let a = "encoding error for column '"@.drop_last();
            let b = "': "@.drop_first();
            assert(e.message() =~= a + quoted_name(column) + b + message);
        },
        DynamicErrorView::SchemaMismatch { table, message } => {
            let a = "schema mismatch for table '"@.drop_last();
            let b = "': "@.drop_first();
            assert(e.message() =~= a + quoted_name(table) + b + message);
        },
        DynamicErrorView::SchemaFetch { table, source } => {
            let a = "failed to fetch schema for '"@.drop_last();
            let b = "': "@.drop_first();
            assert(e.message() =~= a + quoted_name(table) + b + source.message());
        },
        DynamicErrorView::EmptySchema { table } => {
            let a = "table '"@.drop_last();
            let b = "' has no columns or does not exist"@.drop_first();
            assert(e.message() =~= a + quoted_name(table) + b);
        },
        DynamicErrorView::AnswerNeeded(_) => {},
    }
}

/// A name between single quotes.
pub open spec fn quoted_name(s: Seq<char>) -> Seq<char> {
    seq!['\''] + s + seq!['\'']
}

} // verus!
