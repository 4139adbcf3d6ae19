//! `VarUInt` and length-prefixed strings.

use bytes::{Bytes, BytesMut};

use clickhouse_dfe::error::Error;
use clickhouse_dfe::native::buffers::{ClickHouseBytesRead, ClickHouseBytesWrite};
use clickhouse_dfe::native::io::{
    checked_string_len, get_var_uint, push_string, push_var_uint, string_from, var_uint_from,
    MAX_STRING_SIZE,
};

#[test]
fn test_var_uint_roundtrip_sync() {
    // ClickHouse varint packs 7 value bits per byte, up to 10 bytes
    // for the full u64 range. u64::MAX exercises the 10-byte path.
    let test_values: &[u64] = &[
        0,
        1,
        127,
        128,
        255,
        256,
        16383,
        16384,
        (1 << 63) - 1,
        1 << 63,
        u64::MAX,
    ];
    for &val in test_values {
        let mut buf = BytesMut::new();
        buf.put_var_uint(val);
        let mut reader = buf.freeze();
        let decoded = reader.try_get_var_uint().unwrap();
        assert_eq!(val, decoded, "roundtrip failed for {val}");
    }
}

#[test]
fn test_string_roundtrip_sync() {
    let test_strings: &[&[u8]] = &[b"", b"hello", b"hello world", &[0u8; 1000]];
    for &val in test_strings {
        let mut buf = BytesMut::new();
        buf.put_string(val);
        let mut reader = buf.freeze();
        let decoded = reader.try_get_string().unwrap();
        assert_eq!(val, &decoded[..], "roundtrip failed");
    }
}

#[test]
fn test_var_uint_roundtrip_async() {
    let test_values: &[u64] = &[
        0,
        1,
        127,
        128,
        255,
        256,
        16383,
        16384,
        (1 << 63) - 1,
        1 << 63,
        u64::MAX,
    ];
    for &val in test_values {
        let mut buf = Vec::new();
        push_var_uint(&mut buf, val);
        let (decoded, end) = var_uint_from(&buf, 0).unwrap();
        assert_eq!(end, buf.len());
        assert_eq!(val, decoded, "async roundtrip failed for {val}");
    }
}

#[test]
fn test_string_roundtrip_async() {
    let test_strings: &[&[u8]] = &[b"", b"hello", b"hello world"];
    for &val in test_strings {
        let mut buf = Vec::new();
        push_string(&mut buf, val);
        let (decoded, end) = string_from(&buf, 0).unwrap();
        assert_eq!(end, buf.len());
        assert_eq!(val, &decoded[..], "async roundtrip failed");
    }
}

#[test]
fn test_eof_returns_error() {
    let mut buf = Bytes::new();
    let result = buf.try_get_var_uint();
    assert!(result.is_err());
}

#[test]
fn test_var_uint_malformed_too_long_async() {
    // A varint whose continuation bit never clears must fail closed
    // at the 10-byte ceiling rather than truncate the value or spin
    // -- otherwise a corrupt/hostile stream desyncs every later
    // read. 12 bytes, all with the high bit set.
    let malformed = vec![0x81u8; 12];
    let err = var_uint_from(&malformed, 0)
        .expect_err("over-long varint must be rejected");
    assert!(
        matches!(err, Error::BadResponse(_)),
        "expected BadResponse, got {err:?}"
    );
    assert!(err.message().contains("past 10 bytes"), "got: {err:?}");
}

#[test]
fn string_len_boundary_is_inclusive() {
    assert_eq!(
        checked_string_len(MAX_STRING_SIZE).expect("the cap itself is accepted"),
        MAX_STRING_SIZE
    );
    let err = checked_string_len(MAX_STRING_SIZE + 1).expect_err("one past the cap rejects");
    assert!(err.message().contains("string too large"), "{err:?}");
}

#[test]
fn get_var_uint_shares_the_ten_byte_ceiling() {
    assert_eq!(get_var_uint(&[0x00]).expect("zero decodes"), (0, 1));
    assert_eq!(get_var_uint(&[0xAC, 0x02]).expect("decodes"), (300, 2));
    // A value that never clears its continuation bit fails at the ceiling,
    // the same place the two stream readers stop.
    let err = get_var_uint(&[0x81u8; 12]).expect_err("an over-long varint rejects");
    assert!(err.message().contains("past 10 bytes"), "{err:?}");
    // Running out of bytes mid-value is a distinct, recoverable outcome.
    assert!(matches!(
        get_var_uint(&[0x81, 0x81]),
        Err(Error::NotEnoughData)
    ));
}

#[test]
fn test_var_uint_malformed_too_long_sync() {
    // Same fail-closed guarantee on the sync `bytes::Buf` reader.
    let malformed = vec![0x81u8; 12];
    let mut reader = Bytes::from(malformed);
    let err = reader
        .try_get_var_uint()
        .expect_err("over-long varint must be rejected");
    assert!(
        matches!(err, Error::BadResponse(_)),
        "expected BadResponse, got {err:?}"
    );
    assert!(err.message().contains("past 10 bytes"), "got: {err:?}");
}
