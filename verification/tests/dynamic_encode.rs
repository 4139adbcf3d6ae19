//! The row encoder, byte by byte.

use clickhouse_dfe::dynamic::answers::{Answers, Float, Question};
use clickhouse_dfe::dynamic::encode::{ColumnDef, DynamicRow};
use clickhouse_dfe::dynamic::error::DynamicError;
use clickhouse_dfe::dynamic::time::civil_days_from_epoch;
use clickhouse_dfe::dynamic::value::{Number, Value};
use clickhouse_dfe::native::io::push_var_uint;

/// A double with what it becomes as other numbers.
fn float(f: f64) -> Float {
    Float {
        bits: f.to_bits(),
        single: (f as f32).to_bits(),
        unsigned: f as u64,
        signed: f as i64,
    }
}

fn convert(value: &serde_json::Value) -> Value {
    match value {
        serde_json::Value::Null => Value::Null,
        serde_json::Value::Bool(b) => Value::Bool(*b),
        serde_json::Value::Number(n) => Value::Number(Number {
            unsigned: n.as_u64(),
            signed: n.as_i64(),
            float: n.as_f64().map(float),
            text: n.to_string(),
        }),
        serde_json::Value::String(s) => Value::String(s.clone()),
        serde_json::Value::Array(items) => Value::Array(items.iter().map(convert).collect()),
        serde_json::Value::Object(map) => {
            Value::Object(map.iter().map(|(k, v)| (k.clone(), convert(v))).collect())
        }
    }
}

/// The entries of the JSON object that `text` spells.
fn json(text: &str) -> Vec<(String, Value)> {
    let value: serde_json::Value = serde_json::from_str(text).expect("valid JSON");
    match convert(&value) {
        Value::Object(entries) => entries,
        other => panic!("expected an object, got {other:?}"),
    }
}

/// Encode a row, answering what the encoder asks.
fn encode(row: &DynamicRow) -> Result<Vec<u8>, DynamicError> {
    let mut answers = Answers::new();
    loop {
        match row.encode(&answers) {
            Err(DynamicError::AnswerNeeded(Question::Float(text))) => {
                let answer = text.parse::<f64>().ok().map(float);
                answers.supply_float(text, answer);
            }
            Err(DynamicError::AnswerNeeded(Question::Scaled { bits, scale })) => {
                let factor = 10f64.powi(i32::from(scale));
                let product = (f64::from_bits(bits) * factor).round();
                let limit = 2f64.powi(127);
                let answer =
                    if -limit <= product && product < limit { Some(product as i128) } else { None };
                answers.supply_scaled(bits, scale, answer);
            }
            Err(DynamicError::AnswerNeeded(Question::Ipv6(text))) => {
                let mut octets = [0u8; 16];
                octets[15] = 1;
                let answer = if text == "::1" { Some(octets) } else { None };
                answers.supply_ipv6(text, answer);
            }
            other => return other,
        }
    }
}

fn write_varint(value: u64, buf: &mut Vec<u8>) {
    push_var_uint(buf, value);
}

/// Encode a one-row map against the given columns and return wire bytes.
fn enc(row: Vec<(String, Value)>, cols: &[(&str, &str)]) -> Vec<u8> {
    let columns: Vec<ColumnDef> = cols.iter().map(|(n, t)| ColumnDef::new(n, t)).collect();
    encode(&DynamicRow::new(&row, &columns)).unwrap()
}

fn enc_err_of(row: Vec<(String, Value)>, cols: &[(&str, &str)]) -> DynamicError {
    let columns: Vec<ColumnDef> = cols.iter().map(|(n, t)| ColumnDef::new(n, t)).collect();
    encode(&DynamicRow::new(&row, &columns)).unwrap_err()
}

// ---- String / FixedString ----

#[test]
fn string() {
    assert_eq!(
        enc(json(r#"{"s": "hello"}"#), &[("s", "String")]),
        vec![5, b'h', b'e', b'l', b'l', b'o']
    );
}

#[test]
fn string_from_number() {
    assert_eq!(
        enc(json(r#"{"s": 42}"#), &[("s", "String")]),
        vec![2, b'4', b'2']
    );
}

#[test]
fn fixed_string_pad() {
    assert_eq!(
        enc(json(r#"{"f": "ab"}"#), &[("f", "FixedString(4)")]),
        vec![b'a', b'b', 0, 0]
    );
}

#[test]
fn fixed_string_truncate() {
    assert_eq!(
        enc(json(r#"{"f": "abcdef"}"#), &[("f", "FixedString(3)")]),
        vec![b'a', b'b', b'c']
    );
}

// ---- Integers ----

#[test]
fn unsigned_widths() {
    assert_eq!(enc(json(r#"{"x": 7}"#), &[("x", "UInt8")]), vec![7]);
    assert_eq!(
        enc(json(r#"{"x": 300}"#), &[("x", "UInt16")]),
        300u16.to_le_bytes()
    );
    assert_eq!(
        enc(json(r#"{"x": 42}"#), &[("x", "UInt32")]),
        42u32.to_le_bytes()
    );
    assert_eq!(
        enc(json(r#"{"x": 42}"#), &[("x", "UInt64")]),
        42u64.to_le_bytes()
    );
}

#[test]
fn signed_widths() {
    assert_eq!(
        enc(json(r#"{"x": -5}"#), &[("x", "Int8")]),
        (-5i8).to_le_bytes()
    );
    assert_eq!(
        enc(json(r#"{"x": -300}"#), &[("x", "Int16")]),
        (-300i16).to_le_bytes()
    );
    assert_eq!(
        enc(json(r#"{"x": -1}"#), &[("x", "Int32")]),
        (-1i32).to_le_bytes()
    );
    assert_eq!(
        enc(json(r#"{"x": -100}"#), &[("x", "Int64")]),
        (-100i64).to_le_bytes()
    );
}

#[test]
fn int128_uint128() {
    assert_eq!(
        enc(json(r#"{"x": -100}"#), &[("x", "Int128")]),
        (-100i128).to_le_bytes()
    );
    assert_eq!(
        enc(json(r#"{"x": 100}"#), &[("x", "UInt128")]),
        100u128.to_le_bytes()
    );
    // From numeric string (large value beyond i64).
    let v: i128 = 170141183460469231731687303715884105727;
    assert_eq!(
        enc(vec![("x".to_string(), Value::String(v.to_string()))], &[("x", "Int128")]),
        v.to_le_bytes()
    );
}

#[test]
fn int256_uint256() {
    let mut expect_neg = [0xFFu8; 32];
    expect_neg[..16].copy_from_slice(&(-1i128).to_le_bytes());
    assert_eq!(enc(json(r#"{"x": -1}"#), &[("x", "Int256")]), expect_neg);

    let mut expect_pos = [0u8; 32];
    expect_pos[..16].copy_from_slice(&5u128.to_le_bytes());
    assert_eq!(enc(json(r#"{"x": 5}"#), &[("x", "UInt256")]), expect_pos);
}

// ---- Floats / Bool ----

#[test]
fn floats() {
    assert_eq!(
        enc(json(r#"{"f": 2.5}"#), &[("f", "Float64")]),
        2.5f64.to_le_bytes()
    );
    assert_eq!(
        enc(json(r#"{"f": 1.5}"#), &[("f", "Float32")]),
        1.5f32.to_le_bytes()
    );
}

#[test]
fn bool_native() {
    assert_eq!(enc(json(r#"{"b": true}"#), &[("b", "Bool")]), vec![1]);
    assert_eq!(enc(json(r#"{"b": false}"#), &[("b", "Bool")]), vec![0]);
}

#[test]
fn bool_coercions() {
    for (v, want) in [
        ("1", 1u8),
        ("0", 0),
        ("\"true\"", 1),
        ("\"false\"", 0),
        ("\"yes\"", 1),
        ("\"no\"", 0),
        ("\"1\"", 1),
        ("\"0\"", 0),
    ] {
        assert_eq!(enc(json(&format!("{{\"b\": {v}}}")), &[("b", "Bool")]), vec![want]);
    }
}

// ---- Date / DateTime ----

#[test]
fn date_from_string() {
    // 2024-12-25 = day 20082 since epoch.
    let days = civil_days_from_epoch(2024, 12, 25) as u16;
    assert_eq!(
        enc(json(r#"{"d": "2024-12-25"}"#), &[("d", "Date")]),
        days.to_le_bytes()
    );
}

#[test]
fn date_epoch_string() {
    assert_eq!(
        enc(json(r#"{"d": "1970-01-01"}"#), &[("d", "Date")]),
        0u16.to_le_bytes()
    );
}

#[test]
fn date32_from_string() {
    let days = civil_days_from_epoch(2024, 12, 25) as i32;
    assert_eq!(
        enc(json(r#"{"d": "2024-12-25"}"#), &[("d", "Date32")]),
        days.to_le_bytes()
    );
}

#[test]
fn datetime_from_string() {
    // 2024-12-25 10:30:00 UTC = 1735122600.
    assert_eq!(
        enc(json(r#"{"ts": "2024-12-25 10:30:00"}"#), &[("ts", "DateTime")]),
        1_735_122_600u32.to_le_bytes()
    );
}

#[test]
fn datetime_from_number_seconds() {
    assert_eq!(
        enc(json(r#"{"ts": 1735122600}"#), &[("ts", "DateTime")]),
        1_735_122_600u32.to_le_bytes()
    );
}

#[test]
fn datetime_from_epoch_ms_magnitude() {
    // ms value gets scaled down to seconds.
    assert_eq!(
        enc(json(r#"{"ts": 1735122600000}"#), &[("ts", "DateTime")]),
        1_735_122_600u32.to_le_bytes()
    );
}

// ---- DateTime64 ----

#[test]
fn datetime64_from_string_ms() {
    let expected: i64 = 1_775_545_380_095;
    assert_eq!(
        enc(
            json(r#"{"ts": "2026-04-07 07:03:00.095"}"#),
            &[("ts", "DateTime64(3)")]
        ),
        expected.to_le_bytes()
    );
}

#[test]
fn datetime64_iso8601_t_separator() {
    let expected: i64 = 1_775_545_380_095;
    assert_eq!(
        enc(
            json(r#"{"ts": "2026-04-07T07:03:00.095Z"}"#),
            &[("ts", "DateTime64(3)")]
        ),
        expected.to_le_bytes()
    );
}

#[test]
fn datetime64_from_number_passthrough() {
    let v: i64 = 1_775_545_380_095;
    assert_eq!(
        enc(json(&format!("{{\"ts\": {v}}}")), &[("ts", "DateTime64(3)")]),
        v.to_le_bytes()
    );
}

#[test]
fn datetime64_precision_6_and_9() {
    assert_eq!(
        enc(
            json(r#"{"ts": "2026-04-07 07:03:00.095123"}"#),
            &[("ts", "DateTime64(6)")]
        ),
        1_775_545_380_095_123i64.to_le_bytes()
    );
    assert_eq!(
        enc(
            json(r#"{"ts": "2026-04-07 07:03:00.095123456"}"#),
            &[("ts", "DateTime64(9)")]
        ),
        1_775_545_380_095_123_456i64.to_le_bytes()
    );
}

#[test]
fn datetime64_rejects_nonzero_offset() {
    let e = enc_err_of(
        json(r#"{"ts": "2026-04-07 07:03:00+05:30"}"#),
        &[("ts", "DateTime64(3)")],
    );
    assert!(e.message().contains("non-UTC"), "got: {e:?}");
}

// ---- Decimal ----

#[test]
fn decimal64() {
    // 123.45 at scale 2 -> backing 12345.
    assert_eq!(
        enc(json(r#"{"d": 123.45}"#), &[("d", "Decimal(18, 2)")]),
        12_345i64.to_le_bytes()
    );
}

#[test]
fn decimal_concrete_widths() {
    assert_eq!(
        enc(json(r#"{"d": 1.5}"#), &[("d", "Decimal32(2)")]),
        150i32.to_le_bytes()
    );
    assert_eq!(
        enc(json(r#"{"d": 1.5}"#), &[("d", "Decimal64(2)")]),
        150i64.to_le_bytes()
    );
    assert_eq!(
        enc(json(r#"{"d": 1.5}"#), &[("d", "Decimal128(2)")]),
        150i128.to_le_bytes()
    );
    let mut expect256 = [0u8; 32];
    expect256[..16].copy_from_slice(&150i128.to_le_bytes());
    assert_eq!(enc(json(r#"{"d": 1.5}"#), &[("d", "Decimal256(2)")]), expect256);
}

// ---- UUID / IP ----

#[test]
fn uuid_hyphenated() {
    let bytes = enc(
        json(r#"{"id": "12345678-1234-5678-1234-567812345678"}"#),
        &[("id", "UUID")],
    );
    let high = 0x1234_5678_1234_5678u64;
    let low = 0x1234_5678_1234_5678u64;
    let mut expected = high.to_le_bytes().to_vec();
    expected.extend_from_slice(&low.to_le_bytes());
    assert_eq!(bytes, expected);
}

#[test]
fn uuid_hyphenless_matches_hyphenated() {
    let with = enc(
        json(r#"{"id": "12345678-1234-5678-1234-567812345678"}"#),
        &[("id", "UUID")],
    );
    let without = enc(
        json(r#"{"id": "12345678123456781234567812345678"}"#),
        &[("id", "UUID")],
    );
    assert_eq!(with, without);
}

#[test]
fn ipv4_dotted() {
    let bytes = enc(json(r#"{"ip": "1.2.3.4"}"#), &[("ip", "IPv4")]);
    let addr = u32::from_be_bytes([1, 2, 3, 4]);
    assert_eq!(bytes, addr.to_le_bytes());
}

#[test]
fn ipv4_from_integer() {
    let int = u32::from_be_bytes([1, 2, 3, 4]);
    let bytes = enc(json(&format!("{{\"ip\": {int}}}")), &[("ip", "IPv4")]);
    assert_eq!(bytes, int.to_le_bytes());
}

#[test]
fn ipv6() {
    let bytes = enc(json(r#"{"ip": "::1"}"#), &[("ip", "IPv6")]);
    let mut octets = [0u8; 16];
    octets[15] = 1;
    assert_eq!(bytes, octets);
}

// ---- Enum ----

#[test]
fn enum8_and_enum16_numeric() {
    // Enum values are written as the underlying int discriminant. The
    // numeric discriminant is taken from the value directly.
    assert_eq!(
        enc(json(r#"{"e": 2}"#), &[("e", "Enum8('a'=1,'b'=2)")]),
        vec![2]
    );
    assert_eq!(
        enc(json(r#"{"e": 200}"#), &[("e", "Enum16('x'=100,'y'=200)")]),
        200i16.to_le_bytes()
    );
}

#[test]
fn enum8_string_mapping() {
    // String maps to its discriminant from the type definition.
    assert_eq!(
        enc(
            json(r#"{"e": "high"}"#),
            &[("e", "Enum8('low'=1, 'medium'=2, 'high'=3)")]
        ),
        vec![3]
    );
    assert_eq!(
        enc(json(r#"{"e": "y"}"#), &[("e", "Enum16('x'=100, 'y'=200)")]),
        200i16.to_le_bytes()
    );
}

#[test]
fn enum_unknown_string_errors() {
    let e = enc_err_of(json(r#"{"e": "nope"}"#), &[("e", "Enum8('a'=1)")]);
    assert!(
        matches!(e, DynamicError::EncodingError { .. }),
        "got: {e:?}"
    );
}

// ---- Nullable ----

#[test]
fn nullable_null() {
    assert_eq!(
        enc(json(r#"{"n": null}"#), &[("n", "Nullable(String)")]),
        vec![1]
    );
}

#[test]
fn nullable_non_null() {
    assert_eq!(
        enc(json(r#"{"n": "hi"}"#), &[("n", "Nullable(String)")]),
        vec![0, 2, b'h', b'i']
    );
}

#[test]
fn nullable_datetime64() {
    let mut expected = vec![0u8];
    expected.extend_from_slice(&1_775_545_380_095i64.to_le_bytes());
    assert_eq!(
        enc(
            json(r#"{"ts": "2026-04-07 07:03:00.095"}"#),
            &[("ts", "Nullable(DateTime64(3))")]
        ),
        expected
    );
}

#[test]
fn non_nullable_null_gets_default() {
    assert_eq!(enc(json(r#"{}"#), &[("x", "UInt32")]), 0u32.to_le_bytes());
    // Variable-length default is an empty string.
    assert_eq!(enc(json(r#"{}"#), &[("s", "String")]), vec![0]);
}

// ---- LowCardinality ----

#[test]
fn low_cardinality_encodes_inner() {
    // LowCardinality(String) on the INSERT path is just the inner String.
    assert_eq!(
        enc(json(r#"{"c": "x"}"#), &[("c", "LowCardinality(String)")]),
        vec![1, b'x']
    );
}

#[test]
fn low_cardinality_nullable() {
    assert_eq!(
        enc(
            json(r#"{"c": null}"#),
            &[("c", "LowCardinality(Nullable(String))")]
        ),
        vec![1]
    );
    assert_eq!(
        enc(
            json(r#"{"c": "x"}"#),
            &[("c", "LowCardinality(Nullable(String))")]
        ),
        vec![0, 1, b'x']
    );
}

// ---- Array / Map ----

#[test]
fn array_uint32() {
    let mut expected = vec![3u8];
    for n in [1u32, 2, 3] {
        expected.extend_from_slice(&n.to_le_bytes());
    }
    assert_eq!(
        enc(json(r#"{"a": [1, 2, 3]}"#), &[("a", "Array(UInt32)")]),
        expected
    );
}

#[test]
fn array_nested() {
    // Array(Array(UInt8)): outer len 2, each inner len + bytes.
    let bytes = enc(json(r#"{"a": [[1, 2], [3]]}"#), &[("a", "Array(Array(UInt8))")]);
    assert_eq!(bytes, vec![2, /*inner0*/ 2, 1, 2, /*inner1*/ 1, 3]);
}

#[test]
fn array_nullable_elements() {
    // Array(Nullable(UInt8)): len 2, then per element null-marker + value.
    let bytes = enc(json(r#"{"a": [5, null]}"#), &[("a", "Array(Nullable(UInt8))")]);
    assert_eq!(bytes, vec![2, 0, 5, 1]);
}

#[test]
fn map_string_uint32() {
    let bytes = enc(json(r#"{"m": {"a": 1}}"#), &[("m", "Map(String, UInt32)")]);
    let mut expected = vec![1u8]; // count
    expected.extend_from_slice(&[1, b'a']); // key "a"
    expected.extend_from_slice(&1u32.to_le_bytes()); // value
    assert_eq!(bytes, expected);
}

// ---- JSON ----

#[test]
fn json_from_object() {
    let bytes = enc(
        json(r#"{"data": {"key": "value", "num": 42}}"#),
        &[("data", "JSON")],
    );
    let json_str = r#"{"key":"value","num":42}"#;
    let mut expected = Vec::new();
    write_varint(json_str.len() as u64, &mut expected);
    expected.extend_from_slice(json_str.as_bytes());
    assert_eq!(bytes, expected);
}

#[test]
fn json_from_string_verbatim() {
    let payload = r#"{"event":"login","user":"alice"}"#;
    let bytes = enc(vec![("data".to_string(), Value::String(payload.to_string()))], &[("data", "JSON")]);
    let mut expected = Vec::new();
    write_varint(payload.len() as u64, &mut expected);
    expected.extend_from_slice(payload.as_bytes());
    assert_eq!(bytes, expected);
}

#[test]
fn json_missing_value_becomes_empty_object() {
    assert_eq!(enc(json(r#"{}"#), &[("data", "JSON")]), vec![2, b'{', b'}']);
}

#[test]
fn json_explicit_null_becomes_empty_object() {
    assert_eq!(
        enc(json(r#"{"data": null}"#), &[("data", "JSON")]),
        vec![2, b'{', b'}']
    );
}

#[test]
fn json_empty_string_becomes_empty_object() {
    assert_eq!(
        enc(json(r#"{"data": ""}"#), &[("data", "JSON")]),
        vec![2, b'{', b'}']
    );
}

#[test]
fn nullable_json_null_and_non_null() {
    assert_eq!(enc(json(r#"{"t": null}"#), &[("t", "Nullable(JSON)")]), vec![1]);
    let bytes = enc(json(r#"{"t": {"env": "prod"}}"#), &[("t", "Nullable(JSON)")]);
    let json_str = r#"{"env":"prod"}"#;
    let mut expected = vec![0u8];
    write_varint(json_str.len() as u64, &mut expected);
    expected.extend_from_slice(json_str.as_bytes());
    assert_eq!(bytes, expected);
}

// ---- Raw passthrough ----

#[test]
fn raw_passthrough_for_json_column() {
    let columns = vec![
        ColumnDef::new("id", "UInt32"),
        ColumnDef::new("_json", "Nullable(JSON)"),
    ];
    let row = json(r#"{"id": 1}"#);
    let raw = br#"{"event":"login","user":"alice"}"#;
    let bytes = encode(&DynamicRow::with_raw(&row, &columns, raw, "_json")).unwrap();

    let mut expected = Vec::new();
    expected.extend_from_slice(&1u32.to_le_bytes());
    expected.push(0); // not null
    write_varint(raw.len() as u64, &mut expected);
    expected.extend_from_slice(raw);
    assert_eq!(bytes, expected);
}

#[test]
fn raw_passthrough_matches_value_path() {
    let columns = vec![ColumnDef::new("data", "JSON")];
    let payload = br#"{"key":"value","num":42}"#;

    let text = std::str::from_utf8(payload).unwrap();
    let row_value = vec![("data".to_string(), Value::String(text.to_string()))];
    let via_value = encode(&DynamicRow::new(&row_value, &columns)).unwrap();

    let row_empty = json(r#"{}"#);
    let via_raw =
        encode(&DynamicRow::with_raw(&row_empty, &columns, payload, "data")).unwrap();

    assert_eq!(via_value, via_raw);
}

// ---- Multi-column ----

#[test]
fn multi_column_order() {
    let bytes = enc(
        json(r#"{"id": 42, "name": "test"}"#),
        &[("id", "UInt32"), ("name", "String")],
    );
    let mut expected = Vec::new();
    expected.extend_from_slice(&42u32.to_le_bytes());
    expected.extend_from_slice(&[4, b't', b'e', b's', b't']);
    assert_eq!(bytes, expected);
}

// ---- Unsupported types ----

#[test]
fn tuple_is_unsupported() {
    let e = enc_err_of(json(r#"{"t": [1, 2]}"#), &[("t", "Tuple(UInt8, UInt8)")]);
    assert!(
        matches!(e, DynamicError::UnsupportedType { .. }),
        "got: {e:?}"
    );
}

#[test]
fn variant_is_unsupported() {
    let e = enc_err_of(json(r#"{"v": 1}"#), &[("v", "Variant(UInt8, String)")]);
    assert!(
        matches!(e, DynamicError::UnsupportedType { .. }),
        "got: {e:?}"
    );
}

#[test]
fn point_is_unsupported() {
    let e = enc_err_of(json(r#"{"p": [1.0, 2.0]}"#), &[("p", "Point")]);
    assert!(
        matches!(e, DynamicError::UnsupportedType { .. }),
        "got: {e:?}"
    );
}

// ---- varint ----

#[test]
fn varint_boundaries() {
    let mut buf = Vec::new();
    write_varint(0, &mut buf);
    assert_eq!(buf, vec![0]);
    buf.clear();
    write_varint(127, &mut buf);
    assert_eq!(buf, vec![127]);
    buf.clear();
    write_varint(128, &mut buf);
    assert_eq!(buf, vec![0x80, 0x01]);
    buf.clear();
    write_varint(300, &mut buf);
    assert_eq!(buf, vec![0xAC, 0x02]);
}

// ---- civil days ----

#[test]
fn civil_days_known() {
    assert_eq!(civil_days_from_epoch(1970, 1, 1), 0);
    assert_eq!(civil_days_from_epoch(2026, 4, 7), 20_550);
    assert_eq!(civil_days_from_epoch(1969, 12, 31), -1);
}
