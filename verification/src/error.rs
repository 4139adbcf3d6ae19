//! [`Error`], the one error type of the native codec, and its retry
//! classification.

use vstd::prelude::*;
use vstd::string::*;

use crate::native::texts::CellKey;
use crate::text::{decimal, push_decimal};

verus! {

/// Represents all possible errors.
///
/// A failure that the transport or the runtime reports is carried as its text.
#[derive(Debug)]
#[non_exhaustive]
pub enum Error {
    InvalidParams(String),
    Network(String),
    Compression(String),
    Decompression(String),
    RowNotFound,
    SequenceMustHaveLength,
    DeserializeAnyNotSupported,
    NotEnoughData,
    InvalidUtf8Encoding(String),
    InvalidTagEncoding(usize),
    VariantDiscriminatorIsOutOfBound(usize),
    Custom(String),
    /// Background worker task exited; the inserter is no longer accepting
    /// commands. Terminal: construct a fresh inserter, don't retry the same
    /// handle.
    WorkerExited,
    /// Structured server-side exception parsed from the response.
    ServerException {
        /// Signed on the wire; small positives in practice.
        code: i32,
        /// The `(UPPERCASE_NAME)` near the end of the message.
        name: Option<String>,
        /// Cleaned message body.
        message: String,
        /// Server-side stack trace, when the body carried one.
        stack_trace: Option<String>,
    },
    BadResponse(String),
    /// A transport-level failure that a fresh attempt may not hit.
    Transient(String),
    /// A connection could not be opened.
    Connect(String),
    TimedOut,
    InvalidColumnsHeader(String),
    SchemaMismatch(String),
    Unsupported(String),
    /// A cell needs a text the caller has not supplied yet; see
    /// [`crate::native::texts::CellTexts`].
    TextNeeded(CellKey),
    Other(String),
}

/// The mathematical value of an [`Error`].
pub enum ErrorView {
    InvalidParams(Seq<char>),
    Network(Seq<char>),
    Compression(Seq<char>),
    Decompression(Seq<char>),
    RowNotFound,
    SequenceMustHaveLength,
    DeserializeAnyNotSupported,
    NotEnoughData,
    InvalidUtf8Encoding(Seq<char>),
    InvalidTagEncoding(usize),
    VariantDiscriminatorIsOutOfBound(usize),
    Custom(Seq<char>),
    WorkerExited,
    ServerException {
        code: i32,
        name: Option<Seq<char>>,
        message: Seq<char>,
        stack_trace: Option<Seq<char>>,
    },
    BadResponse(Seq<char>),
    Transient(Seq<char>),
    Connect(Seq<char>),
    TimedOut,
    InvalidColumnsHeader(Seq<char>),
    SchemaMismatch(Seq<char>),
    Unsupported(Seq<char>),
    TextNeeded(CellKey),
    Other(Seq<char>),
}

/// The text of an optional string.
pub open spec fn optional_text(s: Option<String>) -> Option<Seq<char>> {
    match s {
        Some(t) => Some(t@),
        None => None,
    }
}

impl View for Error {
    type V = ErrorView;

    open spec fn view(&self) -> ErrorView {
        match *self {
            Error::InvalidParams(s) => ErrorView::InvalidParams(s@),
            Error::Network(s) => ErrorView::Network(s@),
            Error::Compression(s) => ErrorView::Compression(s@),
            Error::Decompression(s) => ErrorView::Decompression(s@),
            Error::RowNotFound => ErrorView::RowNotFound,
            Error::SequenceMustHaveLength => ErrorView::SequenceMustHaveLength,
            Error::DeserializeAnyNotSupported => ErrorView::DeserializeAnyNotSupported,
            Error::NotEnoughData => ErrorView::NotEnoughData,
            Error::InvalidUtf8Encoding(s) => ErrorView::InvalidUtf8Encoding(s@),
            Error::InvalidTagEncoding(n) => ErrorView::InvalidTagEncoding(n),
            Error::VariantDiscriminatorIsOutOfBound(n) =>
                ErrorView::VariantDiscriminatorIsOutOfBound(n),
            Error::Custom(s) => ErrorView::Custom(s@),
            Error::WorkerExited => ErrorView::WorkerExited,
            Error::ServerException { code, name, message, stack_trace } =>
                ErrorView::ServerException {
                    code,
                    name: optional_text(name),
                    message: message@,
                    stack_trace: optional_text(stack_trace),
                },
            Error::BadResponse(s) => ErrorView::BadResponse(s@),
            Error::Transient(s) => ErrorView::Transient(s@),
            Error::Connect(s) => ErrorView::Connect(s@),
            Error::TimedOut => ErrorView::TimedOut,
            Error::InvalidColumnsHeader(s) => ErrorView::InvalidColumnsHeader(s@),
            Error::SchemaMismatch(s) => ErrorView::SchemaMismatch(s@),
            Error::Unsupported(s) => ErrorView::Unsupported(s@),
            Error::TextNeeded(k) => ErrorView::TextNeeded(k),
            Error::Other(s) => ErrorView::Other(s@),
        }
    }
}

/// The server error codes considered transient.
pub open spec fn retriable_code(code: int) -> bool {
    // TIMEOUT_EXCEEDED
    ||| code == 159
    // TOO_SLOW
    ||| code == 160
    // TOO_MANY_SIMULTANEOUS_QUERIES
    ||| code == 202
    // SOCKET_TIMEOUT
    ||| code == 209
    // NETWORK_ERROR
    ||| code == 210
    // ABORTED
    ||| code == 236
    // MEMORY_LIMIT_EXCEEDED
    ||| code == 241
    // TOO_MANY_PARTS
    ||| code == 252
    // ALL_CONNECTION_TRIES_FAILED
    ||| code == 279
    // LIMIT_EXCEEDED
    ||| code == 290
    // UNKNOWN_STATUS_OF_INSERT
    ||| code == 319
    // RECEIVED_ERROR_TOO_MANY_REQUESTS
    ||| code == 364
    // PART_IS_TEMPORARILY_LOCKED
    ||| code == 384
    // CANNOT_SCHEDULE_TASK
    ||| code == 439
    // DEADLOCK_AVOIDED
    ||| code == 473
    // UNKNOWN_STATUS_OF_TRANSACTION
    ||| code == 659
    // TOO_MANY_UNAVAILABLE_SHARDS
    ||| code == 904
    // KEEPER_EXCEPTION
    ||| code == 999
}

impl ErrorView {
    /// Errors that might succeed on retry: the transport-level ones, and the
    /// server exceptions with a transient code.
    pub open spec fn retriable(self) -> bool {
        match self {
            ErrorView::Network(_) => true,
            ErrorView::TimedOut => true,
            ErrorView::Transient(_) => true,
            ErrorView::Connect(_) => true,
            ErrorView::ServerException { code, .. } => retriable_code(code as int),
            _ => false,
        }
    }

    /// The text the error is displayed as.
    pub open spec fn message(self) -> Seq<char> {
        match self {
            ErrorView::InvalidParams(s) => "invalid params: "@ + s,
            ErrorView::Network(s) => "network error: "@ + s,
            ErrorView::Compression(s) => "compression error: "@ + s,
            ErrorView::Decompression(s) => "decompression error: "@ + s,
            ErrorView::RowNotFound =>
                "no rows returned by a query that expected to return at least one row"@,
            ErrorView::SequenceMustHaveLength =>
                "sequences must have a known size ahead of time"@,
            ErrorView::DeserializeAnyNotSupported => "`deserialize_any` is not supported"@,
            ErrorView::NotEnoughData =>
                "not enough data, probably a row type mismatches a database schema"@,
            ErrorView::InvalidUtf8Encoding(_) => "string is not valid utf8"@,
            ErrorView::InvalidTagEncoding(_) => "tag for enum is not valid"@,
            ErrorView::VariantDiscriminatorIsOutOfBound(n) =>
                "max number of types in the Variant data type is 255, got "@ + decimal(n as nat),
            ErrorView::Custom(s) => "a custom error message from serde: "@ + s,
            ErrorView::WorkerExited =>
                "background worker task has exited; the inserter is no longer accepting commands"@,
            ErrorView::ServerException { code, message, .. } => "server error code "@ + (if code
                < 0 {
                "-"@ + decimal((-code) as nat)
            } else {
                decimal(code as nat)
            }) + ": "@ + message,
            ErrorView::BadResponse(s) => "bad response: "@ + s,
            ErrorView::Transient(s) => "transient transport failure: "@ + s,
            ErrorView::Connect(s) => "connect failed: "@ + s,
            ErrorView::TimedOut => "timeout expired"@,
            ErrorView::InvalidColumnsHeader(s) =>
                "error while parsing columns header from the response: "@ + s,
            ErrorView::SchemaMismatch(s) => "schema mismatch: "@ + s,
            ErrorView::Unsupported(s) => "unsupported: "@ + s,
            ErrorView::TextNeeded(_) => "a cell text has not been supplied"@,
            ErrorView::Other(s) => s,
        }
    }
}

/// `head` followed by `tail`.
fn joined(head: &str, tail: &String) -> (out: String)
    ensures
        out@ == head@ + tail@,
{
    let mut out = head.to_owned();
    out.append(tail.as_str());
    out
}

impl Error {
    /// Conservative retriability classification.
    ///
    /// `true` for errors that *might* succeed on retry -- transport-level
    /// (`Network`, `TimedOut`, `Transient`, `Connect`) and a known set of
    /// transient server-side codes. `false` for everything else, including
    /// unknown server codes.
    #[must_use]
    pub fn is_retriable(&self) -> (yes: bool)
        ensures
            yes == self@.retriable(),
    {
        match self {
            Error::Network(_) => true,
            Error::TimedOut => true,
            Error::Transient(_) => true,
            Error::Connect(_) => true,
            Error::ServerException { code, .. } => Error::is_retriable_code(*code),
            _ => false,
        }
    }

    /// ClickHouse error codes considered transient for retry. Conservative --
    /// false negatives are expected; false positives should be rare.
    #[must_use]
    pub fn is_retriable_code(code: i32) -> (yes: bool)
        ensures
            yes == retriable_code(code as int),
    {
        matches!(
            code,
            159 | 160 | 202 | 209 | 210 | 236 | 241 | 252 | 279 | 290 | 319 | 364 | 384 | 439 | 473
                | 659 | 904 | 999
        )
    }

    /// The text the error is displayed as.
    #[must_use]
    pub fn message(&self) -> (out: String)
        ensures
            out@ == self@.message(),
    {
        match self {
            Error::InvalidParams(s) => joined("invalid params: ", s),
            Error::Network(s) => joined("network error: ", s),
            Error::Compression(s) => joined("compression error: ", s),
            Error::Decompression(s) => joined("decompression error: ", s),
            Error::RowNotFound =>
                "no rows returned by a query that expected to return at least one row".to_owned(),
            Error::SequenceMustHaveLength =>
                "sequences must have a known size ahead of time".to_owned(),
            Error::DeserializeAnyNotSupported => "`deserialize_any` is not supported".to_owned(),
            Error::NotEnoughData =>
                "not enough data, probably a row type mismatches a database schema".to_owned(),
            Error::InvalidUtf8Encoding(_) => "string is not valid utf8".to_owned(),
            Error::InvalidTagEncoding(_) => "tag for enum is not valid".to_owned(),
            Error::VariantDiscriminatorIsOutOfBound(n) => {
                let mut out =
                    "max number of types in the Variant data type is 255, got ".to_owned();
                push_decimal(&mut out, *n as u128);
                out
            },
            Error::Custom(s) => joined("a custom error message from serde: ", s),
            Error::WorkerExited =>
                "background worker task has exited; the inserter is no longer accepting commands".to_owned(),
            Error::ServerException { code, message, .. } => {
                let mut number = String::new();
                if *code < 0 {
                    number = "-".to_owned();
                    push_decimal(&mut number, (-(*code as i64)) as u128);
                } else {
                    push_decimal(&mut number, *code as u128);
                    proof {
                        assert(Seq::<char>::empty() + decimal(*code as nat) =~= decimal(
                            *code as nat,
                        ));
                    }
                }
                let mut out = "server error code ".to_owned();
                out.append(number.as_str());
                out.append(": ");
                out.append(message.as_str());
                out
            },
            Error::BadResponse(s) => joined("bad response: ", s),
            Error::Transient(s) => joined("transient transport failure: ", s),
            Error::Connect(s) => joined("connect failed: ", s),
            Error::TimedOut => "timeout expired".to_owned(),
            Error::InvalidColumnsHeader(s) => joined(
                "error while parsing columns header from the response: ",
                s,
            ),
            Error::SchemaMismatch(s) => joined("schema mismatch: ", s),
            Error::Unsupported(s) => joined("unsupported: ", s),
            Error::TextNeeded(_) => "a cell text has not been supplied".to_owned(),
            Error::Other(s) => s.clone(),
        }
    }
}

// ---------------------------------------------------------------------------
// Laws
// ---------------------------------------------------------------------------

/// The codes of the server errors that may pass.
pub open spec fn transient_codes() -> Seq<int> {
    seq![
        159, 160, 202, 209, 210, 236, 241, 252, 279, 290, 319, 364, 384, 439, 473, 659, 904, 999,
    ]
}

/// A failure of the transport may pass, a server error exactly where its code is
/// a transient one, and nothing else: neither a refused request nor a response
/// that cannot be read.
pub proof fn law_what_may_pass(e: ErrorView)
    ensures
        e.retriable() <==> (e is Network || e is TimedOut || e is Transient || e is Connect || (
        e matches ErrorView::ServerException { code, .. } && transient_codes().contains(
            code as int,
        ))),
{
    if let ErrorView::ServerException { code, .. } = e {
        let all = transient_codes();
        let n = code as int;
        if all.contains(n) {
            let i = choose|i: int| 0 <= i < all.len() && all[i] == n;
            assert(all[i] == n);
        }
        if retriable_code(n) {
            assert(all[0] == 159 && all[1] == 160 && all[2] == 202 && all[3] == 209 && all[4]
                == 210 && all[5] == 236 && all[6] == 241 && all[7] == 252 && all[8] == 279 && all[9]
                == 290 && all[10] == 319 && all[11] == 364 && all[12] == 384 && all[13] == 439
                && all[14] == 473 && all[15] == 659 && all[16] == 904 && all[17] == 999);
        }
    }
}

/// Whether `s` ends with `tail`.
pub open spec fn ends_with(s: Seq<char>, tail: Seq<char>) -> bool {
    tail.len() <= s.len() && s.skip(s.len() - tail.len()) == tail
}

proof fn lemma_ends(head: Seq<char>, tail: Seq<char>)
    ensures
        ends_with(head + tail, tail),
{
    assert((head + tail).skip(head.len() as int) =~= tail);
}

/// A message ends with what went wrong, word for word, and a server error with
/// its code and what the server said.
pub proof fn law_messages_carry_their_cause(e: ErrorView)
    ensures
        match e {
            ErrorView::InvalidParams(s) => ends_with(e.message(), s),
            ErrorView::Network(s) => ends_with(e.message(), s),
            ErrorView::Compression(s) => ends_with(e.message(), s),
            ErrorView::Decompression(s) => ends_with(e.message(), s),
            ErrorView::Custom(s) => ends_with(e.message(), s),
            ErrorView::BadResponse(s) => ends_with(e.message(), s),
            ErrorView::Transient(s) => ends_with(e.message(), s),
            ErrorView::Connect(s) => ends_with(e.message(), s),
            ErrorView::InvalidColumnsHeader(s) => ends_with(e.message(), s),
            ErrorView::SchemaMismatch(s) => ends_with(e.message(), s),
            ErrorView::Unsupported(s) => ends_with(e.message(), s),
            ErrorView::Other(s) => ends_with(e.message(), s),
            ErrorView::VariantDiscriminatorIsOutOfBound(n) => ends_with(
                e.message(),
                decimal(n as nat),
            ),
            ErrorView::ServerException { code, message, .. } => ends_with(
                e.message(),
                (if code < 0 {
                    seq!['-'] + decimal((-code) as nat)
                } else {
                    decimal(code as nat)
                }) + seq![':', ' '] + message,
            ),
            _ => true,
        },
{
    match e {
        ErrorView::InvalidParams(s) => lemma_ends("invalid params: "@, s),
        ErrorView::Network(s) => lemma_ends("network error: "@, s),
        ErrorView::Compression(s) => lemma_ends("compression error: "@, s),
        ErrorView::Decompression(s) => lemma_ends("decompression error: "@, s),
        ErrorView::Custom(s) => lemma_ends("a custom error message from serde: "@, s),
        ErrorView::BadResponse(s) => lemma_ends("bad response: "@, s),
        ErrorView::Transient(s) => lemma_ends("transient transport failure: "@, s),
        ErrorView::Connect(s) => lemma_ends("connect failed: "@, s),
        ErrorView::InvalidColumnsHeader(s) => lemma_ends(
            "error while parsing columns header from the response: "@,
            s,
        ),
        ErrorView::SchemaMismatch(s) => lemma_ends("schema mismatch: "@, s),
        ErrorView::Unsupported(s) => lemma_ends("unsupported: "@, s),
        ErrorView::Other(s) => assert(s.skip(0) =~= s),
        ErrorView::VariantDiscriminatorIsOutOfBound(n) => lemma_ends(
            "max number of types in the Variant data type is 255, got "@,
            decimal(n as nat),
        ),
        ErrorView::ServerException { code, message, .. } => {
            reveal_strlit("-");
            reveal_strlit(": ");
            assert("-"@ =~= seq!['-']);
            assert(": "@ =~= seq![':', ' ']);
            let number = if code < 0 {
                seq!['-'] + decimal((-code) as nat)
            } else {
                decimal(code as nat)
            };
            lemma_ends("server error code "@, number + seq![':', ' '] + message);
            assert(e.message() =~= "server error code "@ + (number + seq![':', ' '] + message));
        },
        _ => {},
    }
}

} // verus!
