//! The laws of dynamic inserts, on concrete values.

use clickhouse_dfe::dynamic::answers::{Answers, Float, Question};
use clickhouse_dfe::dynamic::encode::{ColumnDef, DynamicRow};
use clickhouse_dfe::dynamic::error::DynamicError;
use clickhouse_dfe::dynamic::insert::{insert_sql, DynamicInsert, Step};
use clickhouse_dfe::dynamic::parsed_type::{ParsedType, TypeTag};
use clickhouse_dfe::dynamic::schema::{
    schema_from_system_columns, DynamicSchema, DynamicSchemaCache,
};
use clickhouse_dfe::dynamic::scalars::enum_member_value;
use clickhouse_dfe::dynamic::sql::{escape_ident, quote_literal, system_columns_sql};
use clickhouse_dfe::dynamic::time::{
    civil_days_from_epoch, epoch_to_seconds, parse_datetime_str,
};
use clickhouse_dfe::dynamic::value::{Number, Value};
use clickhouse_dfe::error::Error;
use clickhouse_dfe::ext::ServerException;
use clickhouse_dfe::native::columns::ColumnType;
use clickhouse_dfe::native::encode::{encode_columns, ColumnSchema};
use clickhouse_dfe::native::json::rowbinary_to_json;
use clickhouse_dfe::native::texts::CellTexts;

fn text(s: &str) -> Value {
    Value::String(s.to_string())
}

fn float(f: f64) -> Float {
    Float { bits: f.to_bits(), single: (f as f32).to_bits(), unsigned: f as u64, signed: f as i64 }
}

fn whole(i: i64) -> Value {
    Value::Number(Number {
        unsigned: u64::try_from(i).ok(),
        signed: Some(i),
        float: Some(float(i as f64)),
        text: i.to_string(),
    })
}

fn double(f: f64) -> Value {
    Value::Number(Number {
        unsigned: None,
        signed: None,
        float: Some(float(f)),
        text: f.to_string(),
    })
}

fn row(entries: Vec<(&str, Value)>) -> Vec<(String, Value)> {
    entries.into_iter().map(|(k, v)| (k.to_string(), v)).collect()
}

/// One value, encoded for one column.
fn one(value: Value, type_text: &str) -> Result<Vec<u8>, DynamicError> {
    let columns = vec![ColumnDef::new("c", type_text)];
    DynamicRow::new(&row(vec![("c", value)]), &columns).encode(&Answers::new())
}

/// The message of the error that encoding one value gives.
fn refused(value: Value, type_text: &str) -> String {
    match one(value, type_text) {
        Err(DynamicError::EncodingError { column, message }) => {
            assert_eq!(column, "c");
            message
        }
        other => panic!("{type_text}: {other:?}"),
    }
}

#[test]
fn every_refusal_says_why() {
    let list = || Value::Array(vec![]);
    for (value, type_text, message) in [
        (list(), "UInt64", "expected number"),
        (text("x"), "UInt64", "string not parseable as u64"),
        (list(), "Int64", "expected number"),
        (text("x"), "Int64", "string not parseable as i64"),
        (double(0.5), "UInt128", "not a valid u128"),
        (text("-1"), "UInt128", "string not parseable as u128"),
        (double(0.5), "Int128", "not a valid i128"),
        (text(""), "Int128", "string not parseable as i128"),
        (list(), "Float64", "expected number"),
        (text("maybe"), "Bool", "string not parseable as bool"),
        (list(), "Bool", "expected bool"),
        (list(), "Decimal(9, 2)", "expected decimal number"),
        (list(), "DateTime", "expected datetime string or epoch number"),
        (text("2024-12-25 10:30"), "DateTime", "invalid DateTime string"),
        (text("2024-12-25 10:30:0x"), "DateTime", "invalid second"),
        (text("2024-13-25 10:30:00"), "DateTime", "invalid DateTime string"),
        (whole(-1), "DateTime", "DateTime out of range for UInt32 seconds"),
        (text("2024-00-10"), "Date", "invalid Date components"),
        (text("20x4-01-10"), "Date", "invalid Date year"),
        (text("1969-12-31"), "Date", "Date out of range for UInt16 days"),
        (list(), "DateTime64(3)", "expected number or datetime string"),
        (text("9999-12-31 00:00:00"), "DateTime64(18)", "DateTime64 epoch overflow"),
        (whole(300), "Enum8('a'=1)", "Enum8 value out of range"),
        (whole(70_000), "Enum16('a'=1)", "Enum16 value out of range"),
        (list(), "Enum8('a'=1)", "expected enum value"),
        (text("b"), "Enum8('a'=1)", "enum string not found in type definition"),
        (text("12"), "UUID", "invalid UUID length"),
        (text("1.2.3"), "IPv4", "invalid IPv4"),
        (text("1.2.3.256"), "IPv4", "invalid IPv4"),
        (text("01.2.3.4"), "IPv4", "invalid IPv4"),
        (text("1.2.3.4.5"), "IPv4", "invalid IPv4"),
        (whole(1), "Array(UInt8)", "expected array"),
        (list(), "Array", "Array without element type"),
        (whole(1), "Map(String, UInt8)", "expected object for Map"),
        (list(), "Map(String)", "Map without key/value types"),
    ] {
        assert_eq!(refused(value, type_text), message, "{type_text}");
    }
    assert!(matches!(
        one(whole(1), "Nested(a UInt8)"),
        Err(DynamicError::UnsupportedType { column, type_str })
            if column == "c" && type_str == "Nested(a UInt8)"
    ));
}

#[test]
fn the_encoder_asks_what_it_cannot_compute() {
    assert!(matches!(
        one(text(" 1.5 "), "Float64"),
        Err(DynamicError::AnswerNeeded(Question::Float(t))) if t == "1.5"
    ));
    assert!(matches!(
        one(double(1.5), "Decimal32(2)"),
        Err(DynamicError::AnswerNeeded(Question::Scaled { bits, scale: 2 }))
            if bits == 1.5f64.to_bits()
    ));
    assert!(matches!(
        one(text("::1"), "IPv6"),
        Err(DynamicError::AnswerNeeded(Question::Ipv6(t))) if t == "::1"
    ));
    let columns = vec![
        ColumnDef::new("f", "Float64"),
        ColumnDef::new("d", "Decimal32(1)"),
        ColumnDef::new("i", "IPv6"),
    ];
    let entries = row(vec![
        ("f", text("1.5")),
        ("d", Value::Bool(true)),
        ("i", text("::2")),
    ]);
    let mut answers = Answers::new();
    answers.supply_float("1.5".to_string(), Some(float(1.5)));
    answers.supply_scaled(1f64.to_bits(), 1, Some(10));
    answers.supply_ipv6("::2".to_string(), Some([2u8; 16]));
    let bytes = DynamicRow::new(&entries, &columns).encode(&answers).unwrap();
    let mut expected = 1.5f64.to_le_bytes().to_vec();
    expected.extend_from_slice(&10i32.to_le_bytes());
    expected.extend_from_slice(&[2u8; 16]);
    assert_eq!(bytes, expected);
    // What spells nothing is refused, and a decimal must fit its width.
    answers.supply_float("1.5".to_string(), None);
    answers.supply_scaled(1f64.to_bits(), 1, Some(i128::MAX));
    assert!(DynamicRow::new(&entries, &columns[..1]).encode(&answers).is_err());
    let err = DynamicRow::new(&entries, &columns[1..2]).encode(&answers).unwrap_err();
    assert_eq!(err.message(), "encoding error for column 'd': Decimal32 overflow");
}

#[test]
fn json_text_is_written_as_serde_json_writes_it() {
    let source = r#"{"a\"b":[1,-2,null,true,"x\n\u0001\\"],"e":{},"f":"\b\f\t\r\u001f/"}"#;
    let value: serde_json::Value = serde_json::from_str(source).unwrap();
    let inner = Value::Object(row(vec![
        (
            "a\"b",
            Value::Array(vec![whole(1), whole(-2), Value::Null, Value::Bool(true), text("x\n\u{1}\\")]),
        ),
        ("e", Value::Object(vec![])),
        ("f", text("\u{8}\u{c}\t\r\u{1f}/")),
    ]));
    let bytes = one(inner, "JSON").unwrap();
    let expected = serde_json::to_string(&value).unwrap();
    assert_eq!(bytes[0] as usize, expected.len());
    assert_eq!(std::str::from_utf8(&bytes[1..]).unwrap(), expected);
}

#[test]
fn a_missing_column_is_a_null_one() {
    let columns = vec![ColumnDef::new("c", "DateTime64(3)"), ColumnDef::new("d", "Decimal(40, 1)")];
    let answers = Answers::new();
    let missing = DynamicRow::new(&[], &columns).encode(&answers).unwrap();
    let nulls = row(vec![("c", Value::Null), ("d", Value::Null)]);
    assert_eq!(missing, DynamicRow::new(&nulls, &columns).encode(&answers).unwrap());
    assert_eq!(missing, vec![0u8; 40]);
}

#[test]
fn punctuation_in_a_uuid_does_not_matter() {
    let plain = one(text("0123456789abcdeffedcba9876543210"), "UUID").unwrap();
    for form in [
        "01234567-89ab-cdef-fedc-ba9876543210",
        "{01234567-89AB-CDEF-FEDC-BA9876543210}",
        "urn:0123 4567 89ab cdef fedc ba98 7654 3210",
    ] {
        assert_eq!(one(text(form), "UUID").unwrap(), plain, "{form}");
    }
    let mut expected = 0x0123_4567_89ab_cdefu64.to_le_bytes().to_vec();
    expected.extend_from_slice(&0xfedc_ba98_7654_3210u64.to_le_bytes());
    assert_eq!(plain, expected);
}

#[test]
fn what_is_rendered_is_encoded_back() {
    let texts = CellTexts::new();
    let uuid: Vec<u8> = (0x10..0x20).collect();
    let shown = rowbinary_to_json(&uuid, &ColumnType::Uuid, &texts).unwrap();
    let plain = std::str::from_utf8(&shown).unwrap().trim_matches('"');
    assert_eq!(plain, "17161514-1312-1110-1f1e-1d1c1b1a1918");
    assert_eq!(one(text(plain), "UUID").unwrap(), uuid);

    let address = [9u8, 0, 255, 10];
    let shown = rowbinary_to_json(&address, &ColumnType::IPv4, &texts).unwrap();
    let plain = std::str::from_utf8(&shown).unwrap().trim_matches('"');
    assert_eq!(plain, "10.255.0.9");
    assert_eq!(one(text(plain), "IPv4").unwrap(), address);
}

#[test]
fn wrappers_do_not_change_what_is_written() {
    let inner = ParsedType::parse("Enum8('a' = 1, 'b' = 2)");
    let low = ParsedType::parse("LowCardinality( Enum8('a' = 1, 'b' = 2) )");
    assert_eq!(low.raw, inner.raw);
    assert_eq!(low.tag, TypeTag::Enum8);
    assert!(!low.nullable);
    let nullable = ParsedType::parse("Nullable(Enum8('a' = 1, 'b' = 2))");
    assert_eq!(nullable.raw, inner.raw);
    assert!(nullable.nullable);
    assert_eq!(one(text("b"), "Nullable(Enum8('a' = 1, 'b' = 2))").unwrap(), vec![0, 2]);
    let array = ParsedType::parse("Array(Map(String, FixedString(3)))");
    let map = array.array_element.expect("an element type");
    let (key, value) = map.map_types.expect("key and value types");
    assert_eq!(key.tag, TypeTag::String);
    assert_eq!(value.fixed_byte_size(), Some(3));
    let decimal = ParsedType::parse("Decimal(18, 4)");
    assert_eq!(decimal.tag, TypeTag::Unknown);
    assert_eq!((decimal.precision, decimal.scale), (Some(18), Some(4)));
}

#[test]
fn the_calendar_has_no_gaps() {
    let mut next = civil_days_from_epoch(1899, 12, 31) + 1;
    for year in 1900..2105 {
        for month in 1..=12u32 {
            let leap = year % 4 == 0 && (year % 100 != 0 || year % 400 == 0);
            let len = match month {
                2 if leap => 29,
                2 => 28,
                4 | 6 | 9 | 11 => 30,
                _ => 31,
            };
            for day in 1..=len {
                assert_eq!(civil_days_from_epoch(year, month, day), next, "{year}-{month}-{day}");
                next += 1;
            }
        }
    }
}

#[test]
fn one_instant_is_one_second_in_every_unit() {
    let secs = 1_735_122_600i64;
    assert_eq!(epoch_to_seconds(secs), secs);
    assert_eq!(epoch_to_seconds(secs * 1_000 + 999), secs);
    assert_eq!(epoch_to_seconds(secs * 1_000_000 + 5), secs);
    assert_eq!(epoch_to_seconds(secs * 1_000_000_000 + 7), secs);
    assert_eq!(epoch_to_seconds(-5_000_000_000_000), -5_000_000_000_000);
}

#[test]
fn datetimes_read_alike_with_either_separator() {
    let blank = parse_datetime_str("2026-04-07 07:03:00.5Z").unwrap();
    let iso = parse_datetime_str("2026-04-07T07:03:00.5+00:00").unwrap();
    assert_eq!(blank, (1_775_545_380, 500_000_000));
    assert_eq!(blank, iso);
    assert_eq!(parse_datetime_str("1969-12-31 23:59:59").unwrap(), (-1, 0));
    assert_eq!(
        parse_datetime_str("2026-04-07 07:03:00.1234567899").unwrap(),
        (1_775_545_380, 123_456_789)
    );
    assert_eq!(
        parse_datetime_str("2026-04-07 07:03:00-01:00").unwrap_err(),
        "non-UTC timezone offset '-01:00' not supported; convert to UTC first"
    );
    assert_eq!(parse_datetime_str("2026-04-07 07:03:00.").unwrap_err(), "invalid DateTime string");
    assert_eq!(parse_datetime_str("2026-04-07 07:03:00 ").unwrap_err(), "invalid DateTime string");
    assert_eq!(parse_datetime_str("2026-xx-07 07:03:00").unwrap_err(), "invalid month");
}

#[test]
fn quotes_hold_any_text() {
    assert_eq!(escape_ident("a'b\\c\td\ne"), "`a\\'b\\\\c\\\td\\\ne`");
    assert_eq!(quote_literal("o'clock`"), "'o\\'clock\\`'");
    assert_eq!(
        system_columns_sql("db", "t'x"),
        "SELECT name, type AS col_type, default_kind FROM system.columns WHERE database = 'db' \
         AND table = 't\\'x' ORDER BY position"
    );
    let columns = vec![ColumnDef::new("a", "UInt8"), ColumnDef::new("b`", "UInt8")];
    assert_eq!(
        insert_sql("db", "t", &columns, "RowBinary"),
        "INSERT INTO `db`.`t` (`a`, `b\\``) FORMAT RowBinary"
    );
}

#[test]
fn the_last_column_of_a_name_is_found() {
    let columns = vec![ColumnDef::new("a", "UInt8"), ColumnDef::new("a", "String")];
    let schema = DynamicSchema::from_columns("db.t", columns);
    assert_eq!(schema.column("a").unwrap().type_string, "String");
    assert!(matches!(
        schema_from_system_columns("db.t".to_string(), vec![]),
        Err(DynamicError::EmptySchema { table }) if table == "db.t"
    ));
}

#[test]
fn one_table_in_the_cache_is_no_other() {
    let schema = |t: &str| DynamicSchema::from_columns(t, vec![ColumnDef::new("a", "UInt8")]);
    let mut cache = DynamicSchemaCache::new(10);
    cache.insert("db.a", schema("db.a"), 0);
    cache.insert("db.b", schema("db.b"), 5);
    assert_eq!(cache.get("db.a", 9).unwrap().table, "db.a");
    assert!(cache.get("db.a", 10).is_none());
    assert_eq!(cache.get("db.b", 14).unwrap().table, "db.b");
    cache.insert("db.a", schema("db.a"), 12);
    assert!(cache.get("db.a", 21).is_some());
    cache.invalidate("db.a");
    assert!(cache.get("db.a", 12).is_none());
    assert!(cache.get("db.b", 12).is_some());
}

fn system_columns() -> Vec<(String, String, String)> {
    [("id", "UInt8", ""), ("name", "String", ""), ("at", "DateTime", "DEFAULT")]
        .iter()
        .map(|(n, t, d)| (n.to_string(), t.to_string(), d.to_string()))
        .collect()
}

#[test]
fn an_http_insert_fetches_opens_and_writes() {
    let mut cache = DynamicSchemaCache::new(100);
    let answers = Answers::new();
    let entries = row(vec![("id", whole(7)), ("name", text("x"))]);
    let mut insert = DynamicInsert::http("db", "t");
    match insert.write_map(&cache, 0, &entries, &answers) {
        Ok(Step::FetchSchema(sql)) => assert_eq!(sql, system_columns_sql("db", "t")),
        _ => panic!("the schema is asked for first"),
    }
    assert!(insert.schema().is_none());
    insert.supply_schema(&mut cache, 0, system_columns()).unwrap();
    assert_eq!(insert.schema().unwrap().len(), 3);
    match insert.write_map(&cache, 1, &entries, &answers) {
        Ok(Step::Open(opening)) => {
            assert_eq!(opening.sql, "INSERT INTO `db`.`t` (`id`, `name`) FORMAT RowBinary");
            assert!(!opening.json_as_string);
            insert.opened(opening, 0);
        }
        _ => panic!("then the sink"),
    }
    for rows in 1..=2 {
        match insert.write_map(&cache, 2, &entries, &answers) {
            Ok(Step::Row(bytes)) => assert_eq!(bytes, vec![7, 1, b'x']),
            _ => panic!("then rows are written"),
        }
        assert_eq!(insert.rows_written(), rows);
    }
    let bad = row(vec![("id", text("?")), ("name", text("x"))]);
    assert!(insert.write_map(&cache, 2, &bad, &answers).is_err());
    assert_eq!(insert.rows_written(), 2);
    assert!(matches!(insert.end(), Ok(None)));
    assert_eq!(insert.ended(&mut cache, Ok(())).unwrap(), 2);

    // The next insert finds the schema in the cache, and raw columns are in.
    let mut next = DynamicInsert::http("db", "t");
    let raw: &[(&str, &[u8])] = &[("name", b"raw")];
    let short = row(vec![("id", whole(7))]);
    match next.write_map_with_raw(&cache, 3, &short, raw, &answers) {
        Ok(Step::Open(opening)) => next.opened(opening, 0),
        _ => panic!("the schema is cached"),
    }
    match next.write_map_with_raw(&cache, 3, &short, raw, &answers) {
        Ok(Step::Row(bytes)) => assert_eq!(bytes, vec![7, 3, b'r', b'a', b'w']),
        _ => panic!("the row is written"),
    }
    // A rejection for the schema drops it.
    let rejected = next.ended(&mut cache, Err("Code: 117. INCORRECT_DATA".to_string()));
    assert!(matches!(
        rejected,
        Err(DynamicError::SchemaMismatch { table, .. }) if table == "db.t"
    ));
    assert!(cache.get("db.t", 3).is_none());
    assert!(matches!(
        next.write_map(&cache, 3, &short, &answers),
        Ok(Step::FetchSchema(_))
    ));
}

#[test]
fn a_tcp_insert_holds_rows_for_blocks() {
    let cache = DynamicSchemaCache::new(100);
    let answers = Answers::new();
    let schema = schema_from_system_columns("db.t".to_string(), system_columns()).unwrap();
    let mut insert = DynamicInsert::tcp("db", "t", schema, 2);
    let entries = |i: i64| row(vec![("id", whole(i)), ("name", text("x"))]);
    match insert.write_map(&cache, 0, &entries(1), &answers) {
        Ok(Step::Open(opening)) => {
            assert_eq!(opening.sql, "INSERT INTO `db`.`t` (`id`, `name`) FORMAT Native");
            insert.opened(opening, 0);
        }
        _ => panic!("the sink is opened first"),
    }
    assert!(matches!(insert.write_map(&cache, 0, &entries(1), &answers), Ok(Step::Held)));
    assert_eq!(insert.rows_written(), 1);
    match insert.write_map(&cache, 0, &entries(2), &answers) {
        Ok(Step::SendBlock(block)) => {
            assert_eq!((block.num_columns, block.num_rows), (2, 2));
            assert_eq!(block.bytes, b"\x02id\x05UInt8\x01\x02\x04name\x06String\x01x\x01x");
        }
        _ => panic!("a full block is sent"),
    }
    let lost = insert.block_sent(Err("network reset".to_string()));
    assert!(matches!(lost, Err(DynamicError::EncodingError { column, .. }) if column.is_empty()));
    assert_eq!(insert.rows_written(), 1);
    insert.block_sent(Ok(())).unwrap();
    assert_eq!(insert.rows_written(), 2);
    assert!(matches!(insert.write_map(&cache, 0, &entries(3), &answers), Ok(Step::Held)));
    match insert.end() {
        Ok(Some(block)) => assert_eq!(block.num_rows, 1),
        _ => panic!("the held row is sent"),
    }
    assert_eq!(insert.open_failed("boom").message(), "encoding error for column '': boom");
}

#[test]
fn rows_of_the_dynamic_encoder_make_native_blocks() {
    let types = [
        ("a", "Nullable(FixedString(4))"),
        ("b", "LowCardinality(Nullable(String))"),
        ("c", "Array(Array(UInt16))"),
        ("d", "Map(String, Nullable(Int64))"),
        ("e", "Decimal(30, 2)"),
        ("f", "Enum16('x' = 1)"),
        ("g", "JSON"),
        ("h", "DateTime64(3, 'UTC')"),
        ("i", "UInt256"),
    ];
    let columns: Vec<ColumnDef> = types.iter().map(|(n, t)| ColumnDef::new(n, t)).collect();
    let headers: Vec<(String, String)> =
        types.iter().map(|(n, t)| (n.to_string(), t.to_string())).collect();
    let native = ColumnSchema::from_headers(&headers).unwrap();
    let full = row(vec![
        ("a", text("abcdef")),
        ("b", text("x")),
        ("c", Value::Array(vec![Value::Array(vec![whole(1), whole(2)]), Value::Array(vec![])])),
        ("d", Value::Object(row(vec![("k", Value::Null), ("l", whole(-1))]))),
        ("e", Value::Bool(true)),
        ("f", text("x")),
        ("g", Value::Object(row(vec![("z", whole(1))]))),
        ("h", text("2026-04-07 07:03:00.095")),
        ("i", whole(5)),
    ]);
    let mut answers = Answers::new();
    answers.supply_scaled(1f64.to_bits(), 2, Some(100));
    let rows = vec![
        DynamicRow::new(&full, &columns).encode(&answers).unwrap(),
        DynamicRow::new(&[], &columns).encode(&answers).unwrap(),
    ];
    assert!(encode_columns(&rows, &native, 0).is_ok());
}

#[test]
fn errors_read_as_they_are_reported() {
    let mismatch =
        DynamicError::SchemaMismatch { table: "db.t".to_string(), message: "m".to_string() };
    assert_eq!(mismatch.message(), "schema mismatch for table 'db.t': m");
    let fetch = DynamicError::SchemaFetch { table: "db.t".to_string(), source: Error::TimedOut };
    assert_eq!(fetch.message(), "failed to fetch schema for 'db.t': timeout expired");
    let empty = DynamicError::EmptySchema { table: "db.t".to_string() };
    assert_eq!(empty.message(), "table 'db.t' has no columns or does not exist");
    let unsupported =
        DynamicError::UnsupportedType { column: "c".to_string(), type_str: "T".to_string() };
    assert_eq!(unsupported.message(), "unsupported type 'T' for column 'c'");
    let server = Error::ServerException {
        code: -7,
        name: None,
        message: "gone".to_string(),
        stack_trace: None,
    };
    assert_eq!(server.message(), "server error code -7: gone");
    assert_eq!(
        ServerException::parse(&Error::BadResponse("Code: 241. DB::Exception: x".to_string()))
            .unwrap()
            .is_retriable(),
        Error::is_retriable_code(241)
    );
}

#[test]
fn integers_are_encoded_exactly_or_not_at_all() {
    let big = |u: u64| {
        Value::Number(Number {
            unsigned: Some(u),
            signed: i64::try_from(u).ok(),
            float: Some(float(u as f64)),
            text: u.to_string(),
        })
    };
    for (value, type_text, message) in [
        (whole(300), "UInt8", "UInt8 value out of range"),
        (whole(-1), "UInt8", "not a valid unsigned integer"),
        (whole(65_536), "UInt16", "UInt16 value out of range"),
        (big(1 << 32), "UInt32", "UInt32 value out of range"),
        (whole(-1), "UInt64", "not a valid unsigned integer"),
        (whole(-1), "UInt128", "not a valid u128"),
        (whole(128), "Int8", "Int8 value out of range"),
        (whole(-32_769), "Int16", "Int16 value out of range"),
        (whole(1 << 31), "Int32", "Int32 value out of range"),
        (big(1 << 63), "Int64", "not a valid integer"),
        (double(1e30), "UInt64", "not a valid unsigned integer"),
        (double(-1.0), "UInt64", "not a valid unsigned integer"),
        (double(1e19), "Int64", "not a valid integer"),
        (double(1e19), "DateTime64(3)", "invalid DateTime64 number"),
        (text("256"), "UInt8", "UInt8 value out of range"),
    ] {
        assert_eq!(refused(value, type_text), message, "{type_text}");
    }
    assert_eq!(one(whole(255), "UInt8").unwrap(), vec![255]);
    assert_eq!(one(whole(-128), "Int8").unwrap(), vec![0x80]);
    assert_eq!(one(double(7.9), "UInt8").unwrap(), vec![7]);
    assert_eq!(one(double(-0.5), "UInt8").unwrap(), vec![0]);
    assert_eq!(
        one(double(-9_223_372_036_854_775_808.0), "Int64").unwrap(),
        i64::MIN.to_le_bytes().to_vec()
    );
    assert_eq!(one(big(u64::MAX), "UInt64").unwrap(), vec![255; 8]);
}

#[test]
fn datetimes_keep_their_separators() {
    assert!(parse_datetime_str("2024-12-25 10:30:00").is_ok());
    for s in [
        "2024/12/25 10-30-00",
        "2024-12/25 10:30:00",
        "2024-12-25 10.30:00",
        "2024-12-25 10:30.00",
        "2024-12-25_10:30:00",
    ] {
        assert_eq!(parse_datetime_str(s).unwrap_err(), "invalid DateTime string", "{s}");
    }
    assert_eq!(parse_datetime_str("+024-12-25 10:30:00").unwrap_err(), "invalid year");
    assert_eq!(parse_datetime_str("2024-+1-25 10:30:00").unwrap_err(), "invalid month");
    assert_eq!(refused(text("2024-12/25"), "Date"), "invalid DateTime string");
}

#[test]
fn a_date_is_its_first_second() {
    let expected = 1_735_084_800u32.to_le_bytes().to_vec();
    assert_eq!(one(text("2024-12-25"), "DateTime").unwrap(), expected);
    assert_eq!(one(text("2024-12-25 00:00:00"), "DateTime").unwrap(), expected);
    assert_eq!(refused(text("2024-13-25"), "DateTime"), "invalid DateTime string");
}

#[test]
fn commas_in_the_names_of_enum_members_do_not_split_the_list() {
    let list = "Enum8('a,b' = 1, 'c' = 2, 'd=e' = 3, 'it\\'s, so' = 4)";
    assert_eq!(one(text("c"), list).unwrap(), vec![2]);
    assert_eq!(one(text("a,b"), list).unwrap(), vec![1]);
    assert_eq!(one(text("d=e"), list).unwrap(), vec![3]);
    assert_eq!(one(text("it\\'s, so"), list).unwrap(), vec![4]);
    assert_eq!(refused(text("b"), list), "enum string not found in type definition");
    let chars = |s: &str| s.chars().collect::<Vec<char>>();
    assert_eq!(enum_member_value(&chars(list), &chars("c")), Some(2));
}

#[test]
fn a_body_without_the_marker_loses_its_code() {
    let parse = |body: &str| ServerException::parse(&Error::BadResponse(body.into()));
    let e = parse("Code: 60. Table missing").expect("a code and a message");
    assert_eq!(e.code, 60);
    assert_eq!(e.message, "Table missing");
    let e = parse("Code: 60.  Gone. (UNKNOWN_TABLE) (version 23.8.1)").expect("a name too");
    assert_eq!(e.message, "Gone");
    assert_eq!(e.name.as_deref(), Some("UNKNOWN_TABLE"));
    assert!(parse("Code: 60.").is_none());
}

#[test]
fn a_decimal_past_its_width_is_refused() {
    let columns = vec![ColumnDef::new("c", "Decimal(38, 0)")];
    let entries = row(vec![("c", double(1e300))]);
    let mut answers = Answers::new();
    answers.supply_scaled(1e300f64.to_bits(), 0, None);
    match DynamicRow::new(&entries, &columns).encode(&answers) {
        Err(DynamicError::EncodingError { message, .. }) => {
            assert_eq!(message, "Decimal128 overflow");
        }
        other => panic!("got {other:?}"),
    }
    let entries = row(vec![("c", text("NaN"))]);
    let mut answers = Answers::new();
    answers.supply_float("NaN".to_string(), Some(float(f64::NAN)));
    match DynamicRow::new(&entries, &columns).encode(&answers) {
        Err(DynamicError::EncodingError { message, .. }) => {
            assert_eq!(message, "string not parseable as decimal");
        }
        other => panic!("got {other:?}"),
    }
}

#[test]
fn an_address_or_a_single_past_its_width_is_refused() {
    assert_eq!(one(whole(0x7f00_0001), "IPv4").unwrap(), vec![1, 0, 0, 127]);
    assert_eq!(refused(whole(0x1_0000_0000), "IPv4"), "invalid IPv4");
    assert_eq!(one(double(1.5), "Float32").unwrap(), 1.5f32.to_le_bytes().to_vec());
    assert_eq!(refused(double(1e300), "Float32"), "Float32 overflow");
    assert_eq!(one(double(1e300), "Float64").unwrap(), 1e300f64.to_le_bytes().to_vec());
}

#[test]
fn json_within_a_column_counts_as_json() {
    let with = |type_text: &str| {
        DynamicSchema::from_columns("d.t", vec![ColumnDef::new("c", type_text)]).has_json_columns()
    };
    assert!(with("JSON"));
    assert!(with("Array(JSON)"));
    assert!(with("Map(String, Array(JSON))"));
    assert!(!with("Map(String, Array(String))"));
}

#[test]
fn a_decimal_at_the_edge_of_128_bits_is_written() {
    let edge = -(2f64.powi(127));
    let entries = row(vec![("c", double(edge))]);
    let mut answers = Answers::new();
    answers.supply_scaled(edge.to_bits(), 0, Some(i128::MIN));
    let columns = vec![ColumnDef::new("c", "Decimal(76, 0)")];
    let mut expected = i128::MIN.to_le_bytes().to_vec();
    expected.extend_from_slice(&[0xff; 16]);
    assert_eq!(DynamicRow::new(&entries, &columns).encode(&answers).unwrap(), expected);
    let columns = vec![ColumnDef::new("c", "Decimal(38, 0)")];
    let bytes = DynamicRow::new(&entries, &columns).encode(&answers).unwrap();
    assert_eq!(bytes, i128::MIN.to_le_bytes().to_vec());
    // One step further out there is no such integer.
    answers.supply_scaled(edge.to_bits(), 0, None);
    for (type_text, message) in [
        ("Decimal(9, 0)", "Decimal32 overflow"),
        ("Decimal(18, 0)", "Decimal64 overflow"),
        ("Decimal(38, 0)", "Decimal128 overflow"),
        ("Decimal(76, 0)", "Decimal256 overflow"),
    ] {
        let columns = vec![ColumnDef::new("c", type_text)];
        match DynamicRow::new(&entries, &columns).encode(&answers) {
            Err(DynamicError::EncodingError { message: m, .. }) => assert_eq!(m, message),
            other => panic!("got {other:?}"),
        }
    }
}

#[test]
fn the_cache_holds_the_last_insert_that_stands() {
    let schema = |n: &str| DynamicSchema::from_columns(n, vec![ColumnDef::new("c", "UInt8")]);
    let found = |cache: &DynamicSchemaCache, now: u128| cache.get("t", now).map(|s| s.table);
    let mut cache = DynamicSchemaCache::new(10);
    assert_eq!(found(&cache, 0), None);
    cache.insert("t", schema("first"), 1);
    cache.insert("u", schema("other"), 2);
    cache.insert("t", schema("second"), 5);
    cache.invalidate("u");
    assert_eq!(found(&cache, 14).as_deref(), Some("second"));
    assert_eq!(found(&cache, 14).as_deref(), Some("second"));
    assert_eq!(found(&cache, 15), None);
    // On a clock set back no time has passed.
    assert_eq!(found(&cache, 0).as_deref(), Some("second"));
    cache.invalidate("t");
    assert_eq!(found(&cache, 6), None);
    cache.insert("t", schema("third"), 20);
    cache.invalidate_all();
    assert_eq!(found(&cache, 20), None);
    cache.insert("t", schema("fourth"), 30);
    assert_eq!(found(&cache, 31).as_deref(), Some("fourth"));
    let mut stale = DynamicSchemaCache::new(0);
    stale.insert("t", schema("never"), 1);
    assert_eq!(found(&stale, 1), None);
}
