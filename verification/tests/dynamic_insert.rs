//! The insert: its columns, its statements and its steps.

use clickhouse_dfe::dynamic::answers::Float;
use clickhouse_dfe::dynamic::encode::ColumnDef;
use clickhouse_dfe::dynamic::error::DynamicError;
use clickhouse_dfe::dynamic::insert::{classify_error, select_columns};
use clickhouse_dfe::dynamic::schema::DynamicSchema;
use clickhouse_dfe::dynamic::sql::escape_ident;
use clickhouse_dfe::dynamic::value::{Number, Value};
use clickhouse_dfe::native::encode::{encode_columns, ColumnSchema};

/// A double with what it becomes as other numbers.
fn float(f: f64) -> Float {
    Float {
        bits: f.to_bits(),
        single: (f as f32).to_bits(),
        unsigned: f as u64,
        signed: f as i64,
    }
}

fn convert(value: &serde_json::Value) -> Value {
    match value {
        serde_json::Value::Null => Value::Null,
        serde_json::Value::Bool(b) => Value::Bool(*b),
        serde_json::Value::Number(n) => Value::Number(Number {
            unsigned: n.as_u64(),
            signed: n.as_i64(),
            float: n.as_f64().map(float),
            text: n.to_string(),
        }),
        serde_json::Value::String(s) => Value::String(s.clone()),
        serde_json::Value::Array(items) => Value::Array(items.iter().map(convert).collect()),
        serde_json::Value::Object(map) => {
            Value::Object(map.iter().map(|(k, v)| (k.clone(), convert(v))).collect())
        }
    }
}

/// The entries of the JSON object that `text` spells.
fn json(text: &str) -> Vec<(String, Value)> {
    let value: serde_json::Value = serde_json::from_str(text).expect("valid JSON");
    match convert(&value) {
        Value::Object(entries) => entries,
        other => panic!("expected an object, got {other:?}"),
    }
}

fn schema() -> DynamicSchema {
    DynamicSchema::from_columns(
        "db.t",
        vec![
            ColumnDef::with_default_kind("id", "UInt64", ""),
            ColumnDef::with_default_kind("name", "String", ""),
            ColumnDef::with_default_kind("_uuid", "UUID", "DEFAULT"),
            ColumnDef::with_default_kind("_json", "JSON", ""),
        ],
    )
}

#[test]
fn select_columns_includes_present_and_required_omits_absent_default() {
    let s = schema();
    let obj = json(r#"{ "id": 1, "name": "a" }"#);
    let cols = select_columns(&obj, &[], &s);
    let names: Vec<&str> = cols.iter().map(|c| c.name.as_str()).collect();
    // id, name present; _json required (no default); _uuid omitted (default, absent)
    assert_eq!(names, vec!["id", "name", "_json"]);
}

#[test]
fn select_columns_includes_raw_passthrough_column() {
    let s = schema();
    let obj = json(r#"{ "id": 1 }"#);
    let cols = select_columns(&obj, &["_json"], &s);
    assert!(cols.iter().any(|c| c.name == "_json"));
}

#[test]
fn classify_recognises_schema_drift() {
    let e = clickhouse::error::Error::Custom("Code: 117. DB::Exception: incorrect data".into());
    assert!(matches!(
        classify_error("db.t", &e.to_string()),
        DynamicError::SchemaMismatch { .. }
    ));

    let e = clickhouse::error::Error::Custom("network reset".into());
    assert!(matches!(
        classify_error("db.t", &e.to_string()),
        DynamicError::EncodingError { .. }
    ));
}

#[test]
fn escape_ident_quotes_and_escapes() {
    assert_eq!(escape_ident("plain"), "`plain`");
    assert_eq!(escape_ident("we`ird"), "`we\\`ird`");
}

/// Every type the encoder writes has to parse as a Native block header,
/// or the TCP sink cannot declare the column.
#[test]
fn native_headers_cover_every_encoder_type() {
    let ok = [
        ("a", "UInt64"),
        ("b", "Nullable(String)"),
        ("c", "LowCardinality(Nullable(String))"),
        ("d", "Array(Int64)"),
        ("e", "Map(String, UInt32)"),
        ("f", "DateTime64(3, 'UTC')"),
        ("g", "Decimal(18, 2)"),
        ("h", "Enum8('a' = 1)"),
        ("i", "FixedString(16)"),
        ("j", "IPv6"),
        ("k", "JSON"),
    ];
    for (name, ty) in ok {
        let headers = vec![(name.to_string(), ty.to_string())];
        assert!(
            ColumnSchema::from_headers(&headers).is_ok(),
            "{ty} must parse as a Native column header"
        );
    }

    // The encoder already writes JSON as a length-prefixed string, so the
    // block declares the column as String and the server casts it back.
    let json = vec![("data".to_string(), "JSON".to_string())];
    let native = ColumnSchema::from_headers(&json).unwrap();
    let block = encode_columns(&[vec![2u8, b'{', b'}']], &native, 0).unwrap();
    assert_eq!(block.as_slice(), b"\x04data\x06String\x02{}");
}
