//! Typed server errors.

use clickhouse_dfe::error::Error;
use clickhouse_dfe::ext::ServerException;


/// The shape a modern server sends: code, marker, message, name, version.
#[test]
fn parse_reads_code_name_and_message() {
    let err = Error::BadResponse(
        "Code: 469. DB::Exception: Constraint `x_lt_10` for table t is violated at row 5000. \
         (VIOLATED_CONSTRAINT) (version 26.2.4.23 (official build))"
            .into(),
    );
    let exc = ServerException::parse(&err).expect("a well-formed exception body parses");
    assert_eq!(exc.code, 469);
    assert_eq!(exc.name.as_deref(), Some("VIOLATED_CONSTRAINT"));
    assert_eq!(
        exc.message,
        "Constraint `x_lt_10` for table t is violated at row 5000"
    );
    assert!(exc.stack_trace.is_none());
}

/// The socket pair a `NetException` ends in is not a name tag.
#[test]
fn parse_keeps_trailing_parens_that_are_not_a_name_tag() {
    let err = Error::BadResponse(
        "Code: 210. DB::NetException: I/O error: Broken pipe, while writing to socket \
         (127.0.0.1:9000 -> 127.0.0.1:54646). (NETWORK_ERROR) (version 23.8.8.20)"
            .into(),
    );
    let exc = ServerException::parse(&err).expect("a NetException body parses");
    assert_eq!(exc.code, 210);
    assert_eq!(exc.name.as_deref(), Some("NETWORK_ERROR"));
    assert_eq!(
        exc.message,
        "I/O error: Broken pipe, while writing to socket (127.0.0.1:9000 -> 127.0.0.1:54646)"
    );
}

#[test]
fn parse_splits_the_stack_trace_out_of_the_message() {
    let err = Error::BadResponse(
        "Code: 36. DB::Exception: Bad arguments. Stack trace:\n0. ./Common/Exception.cpp:99\n\
         1. ./Functions/foo.cpp:42\n (BAD_ARGUMENTS) (version 26.2.4.23 (official build))"
            .into(),
    );
    let exc = ServerException::parse(&err).expect("a body with a trace parses");
    assert_eq!(exc.code, 36);
    assert_eq!(exc.message, "Bad arguments.");
    let trace = exc.stack_trace.expect("the trace section is captured");
    assert!(trace.contains("Exception.cpp:99"), "got {trace:?}");
    assert!(trace.contains("foo.cpp:42"), "got {trace:?}");
}

#[test]
fn parse_tolerates_a_missing_name_tag() {
    let err = Error::BadResponse(
        "Code: 999. DB::Exception: Generic problem (version 26.2.4.23 (official build))".into(),
    );
    let exc = ServerException::parse(&err).expect("a body without a name tag parses");
    assert_eq!(exc.code, 999);
    assert!(exc.name.is_none());
    assert_eq!(exc.message, "Generic problem");
}

#[test]
fn parse_declines_anything_that_is_not_an_exception_body() {
    for body in [
        "404 Not Found",
        "",
        "DB::Exception: oops",
        // A code but no message left after stripping.
        "Code: 60. DB::Exception: (UNKNOWN_TABLE)",
    ] {
        let err = Error::BadResponse(body.into());
        assert!(
            ServerException::parse(&err).is_none(),
            "{body:?} should not parse"
        );
    }
    assert!(ServerException::parse(&Error::TimedOut).is_none());
}

/// Declining a bare code loses the only field a caller classifies on.
#[test]
fn parse_accepts_the_bare_code_upstream_falls_back_to() {
    let exc = ServerException::parse(&Error::BadResponse("117".into()))
        .expect("a bare exception code is a rejection, not junk");
    assert_eq!(exc.code, 117);
    assert_eq!(exc.name, None);
    assert!(exc.message.is_empty(), "no message is on the wire to read");
    assert!(exc.stack_trace.is_none());

    // Whitespace is upstream's own `trim`, and a retriable code still reads.
    let exc = ServerException::parse(&Error::BadResponse(" 202 ".into()))
        .expect("a padded bare code still parses");
    assert_eq!(exc.code, 202);
    assert!(exc.is_retriable());
}

#[test]
fn is_retriable_shares_the_error_code_table() {
    let exc = |code: i32| {
        let body = format!("Code: {code}. DB::Exception: x");
        let exc = ServerException::parse(&Error::BadResponse(body)).expect("a body parses");
        assert_eq!(exc.code, code);
        assert_eq!(exc.name, None);
        assert_eq!(exc.message, "x");
        assert!(exc.stack_trace.is_none());
        exc
    };
    // 159 = TIMEOUT_EXCEEDED, 60 = UNKNOWN_TABLE.
    assert!(exc(159).is_retriable());
    assert!(!exc(60).is_retriable());
}
