//! Retry classification.

use clickhouse_dfe::error::Error;

#[test]
fn is_retriable_classifies_known_transient_codes() {
    let make = |code: i32| Error::ServerException {
        code,
        name: None,
        message: String::new(),
        stack_trace: None,
    };

    // Sampled from the retriable table -- known transient codes.
    for &code in &[
        159i32, 160, 202, 209, 210, 236, 241, 252, 279, 290, 319, 364, 384, 439, 473, 659, 904,
        999,
    ] {
        assert!(make(code).is_retriable(), "code {code} should be retriable");
    }

    // Sampled known-not-retriable codes (auth, schema, parse).
    for &code in &[36i32, 60, 117, 192, 195, 469] {
        assert!(
            !make(code).is_retriable(),
            "code {code} should NOT be retriable"
        );
    }
}

#[test]
fn is_retriable_for_transport_errors() {
    assert!(Error::TimedOut.is_retriable());
    assert!(Error::Network("reset".to_string()).is_retriable());
    // An I/O failure outside a request is carried as its text, and is not
    // retriable: the classification is conservative.
    assert!(!Error::Other("reset".to_string()).is_retriable());
    assert!(!Error::Custom("reset".to_string()).is_retriable());
}

#[test]
fn is_retriable_code_defaults_unknown_to_not_retriable() {
    // Conservative default: anything outside the documented
    // retriable set is NOT retriable. New ClickHouse versions
    // can ship new codes; until our table is updated, callers
    // see them as terminal -- safer than masking real failures
    // under a retry loop.
    for &code in &[0i32, 1, 12345, 99999, i32::MAX] {
        assert!(
            !Error::is_retriable_code(code),
            "unknown code {code} should default to NOT retriable"
        );
    }
}
