//! Column types, the column reader, and the JSON text of single cells.

use clickhouse_dfe::error::Error;
use clickhouse_dfe::native::buffers::ClickHouseBytesWrite;
use clickhouse_dfe::native::columns::{max_paren_depth, ColumnType};
use clickhouse_dfe::native::io::Wire;
use clickhouse_dfe::native::reader::index_width;
use clickhouse_dfe::native::texts::{CellKey, CellTexts};

/// The text of a floating point cell: the number as a double, without an
/// exponent.
fn float_text(key: CellKey) -> Vec<u8> {
    match key {
        CellKey::Single(bits) => format!("{}", f64::from(f32::from_bits(bits))).into_bytes(),
        CellKey::Double(bits) => format!("{}", f64::from_bits(bits)).into_bytes(),
    }
}

/// Read a column off the front of `wire`: its cells, and how many bytes they
/// took.
fn read_column(
    wire: &[u8],
    col_type: &ColumnType,
    rows: u64,
) -> Result<(Vec<Vec<u8>>, usize), Error> {
    let mut texts = CellTexts::new();
    loop {
        let outcome = {
            let w = Wire { data: wire, texts: &texts, budget: isize::MAX as usize };
            clickhouse_dfe::native::reader::read_column(&w, 0, col_type, rows)
        };
        match outcome {
            Err(Error::TextNeeded(key)) => texts.supply(key, float_text(key)),
            other => return other,
        }
    }
}

fn rowbinary_to_json(cell: &[u8], col_type: &ColumnType) -> Vec<u8> {
    let mut texts = CellTexts::new();
    loop {
        match clickhouse_dfe::native::json::rowbinary_to_json(cell, col_type, &texts) {
            Ok(json) => return json,
            Err(Error::TextNeeded(key)) => texts.supply(key, float_text(key)),
            Err(e) => panic!("{e:?}"),
        }
    }
}

#[test]
fn parse_rejects_pathologically_deep_nesting() {
    let deep = format!("{}UInt8{}", "Array(".repeat(1000), ")".repeat(1000));
    assert!(ColumnType::parse(&deep).is_none());
}

#[test]
fn parse_accepts_realistic_nesting() {
    assert!(
        ColumnType::parse("Array(Map(String, Tuple(UInt8, Array(Nullable(String)))))")
            .is_some()
    );
}

#[test]
fn max_paren_depth_counts_nesting() {
    assert_eq!(max_paren_depth("UInt8"), 0);
    assert_eq!(max_paren_depth("Array(UInt8)"), 1);
    assert_eq!(max_paren_depth("Array(Array(UInt8))"), 2);
    assert_eq!(max_paren_depth("Tuple(UInt8, Array(String))"), 2);
}

/// One `LowCardinality(String)` block: version, flags, dictionary, indices.
fn lc_string(dict: &[&str], idx: &[u8]) -> Vec<u8> {
    let mut p = Vec::new();
    p.extend_from_slice(&1u64.to_le_bytes());
    p.extend_from_slice(&0x200u64.to_le_bytes()); // HAS_ADDITIONAL_KEYS | u8 indices
    p.extend_from_slice(&(dict.len() as u64).to_le_bytes());
    for s in dict {
        p.push(u8::try_from(s.len()).expect("test strings stay under 128 bytes"));
        p.extend_from_slice(s.as_bytes());
    }
    p.extend_from_slice(&(idx.len() as u64).to_le_bytes());
    p.extend_from_slice(idx);
    p
}

/// `(type name, wire bytes, row count)`: the reader must consume every byte
/// listed and no more, so a desync inside one column shows up here rather
/// than as a corrupt column later in the block.
fn byte_exact_cases() -> Vec<(&'static str, Vec<u8>, u64)> {
    vec![
        ("UInt8", vec![1, 2, 3], 3),
        ("Int64", vec![0u8; 16], 2),
        ("Float64", vec![0u8; 8], 1),
        ("Decimal(18, 4)", vec![0u8; 8], 1),
        ("Date", vec![0u8; 4], 2),
        ("DateTime64(3, 'UTC')", vec![0u8; 8], 1),
        ("UUID", vec![0u8; 16], 1),
        ("IPv4", vec![0u8; 4], 1),
        ("IPv6", vec![0u8; 16], 1),
        ("Point", vec![0u8; 32], 2),
        ("String", vec![1, b'a', 0, 2, b'b', b'c'], 3),
        ("FixedString(3)", b"abcdef".to_vec(), 2),
        ("Nullable(UInt8)", vec![0, 1, 7, 0], 2),
        (
            "LowCardinality(String)",
            lc_string(&["a", "b"], &[0, 1, 0]),
            3,
        ),
        (
            "LowCardinality(Nullable(String))",
            lc_string(&["", "x"], &[0, 1]),
            2,
        ),
        // Two rows of two u64 elements each.
        (
            "Array(UInt64)",
            {
                let mut p = Vec::new();
                p.extend_from_slice(&1u64.to_le_bytes());
                p.extend_from_slice(&2u64.to_le_bytes());
                p.extend_from_slice(&[0u8; 16]);
                p
            },
            2,
        ),
        // One row of one (UInt8, String) pair.
        (
            "Array(Tuple(UInt8, String))",
            {
                let mut p = Vec::new();
                p.extend_from_slice(&1u64.to_le_bytes());
                p.push(9);
                p.extend_from_slice(&[1, b'z']);
                p
            },
            1,
        ),
        // One row of one String -> Nullable(UInt8) pair.
        (
            "Map(String, Nullable(UInt8))",
            {
                let mut p = Vec::new();
                p.extend_from_slice(&1u64.to_le_bytes());
                p.extend_from_slice(&[1, b'k']);
                p.extend_from_slice(&[0, 5]);
                p
            },
            1,
        ),
        // Fixed-width scalars: the payload is exactly rows x declared
        // width, so a wrong width shows up as a leftover or a short read.
        ("Bool", vec![0, 1, 1], 3),
        ("Int8", vec![0u8; 2], 2),
        ("Int16", vec![0u8; 4], 2),
        ("Int32", vec![0u8; 8], 2),
        ("UInt16", vec![0u8; 4], 2),
        ("UInt32", vec![0u8; 8], 2),
        ("UInt64", vec![0u8; 16], 2),
        ("Float32", vec![0u8; 8], 2),
        ("BFloat16", vec![0u8; 4], 2),
        ("Int128", vec![0u8; 32], 2),
        ("UInt128", vec![0u8; 16], 1),
        ("Int256", vec![0u8; 32], 1),
        ("UInt256", vec![0u8; 64], 2),
        ("Date32", vec![0u8; 8], 2),
        ("DateTime", vec![0u8; 8], 2),
        ("Time", vec![0u8; 8], 2),
        // Enums are their index width, not the member text.
        ("Enum8('a' = 1, 'b' = 2)", vec![1, 2], 2),
        ("Enum16('a' = 1)", vec![1, 0], 1),
        // Decimal width follows precision; the scale never moves it.
        ("Decimal(9, 2)", vec![0u8; 8], 2),
        ("Decimal(38, 2)", vec![0u8; 16], 1),
        ("Decimal(76, 2)", vec![0u8; 32], 1),
        // The wrapper is stripped and the inner type read in its place.
        ("SimpleAggregateFunction(sum, UInt64)", vec![0u8; 16], 2),
        // Top-level Tuple is column-major: the UInt8, then the String.
        ("Tuple(UInt8, String)", vec![9, 1, b'z'], 1),
        // Nullable(String): the mask, then a value for every row, nulls
        // included -- row 1's placeholder is a zero-length string.
        ("Nullable(String)", vec![0, 1, 1, b'a', 0], 2),
        ("Variant(UInt8, String)", variant_payload(), 2),
        ("Dynamic", dynamic_v2_payload(), 2),
        ("Dynamic", dynamic_v3_payload(), 2),
        ("JSON", json_v3_payload(), 2),
        ("JSON", json_v2_payload(&[]), 2),
        // The same block with one row spilled into shared data.
        ("JSON", json_v2_payload(&[("x", "1")]), 2),
    ]
}

/// JSON v2: version, one path, its Dynamic v2 header, discriminators and
/// data, then the `Array(Tuple(String, String))` shared-data section
/// carrying `spilled`.
fn json_v2_payload(spilled: &[(&str, &str)]) -> Vec<u8> {
    let mut p = Vec::new();
    p.extend_from_slice(&2u64.to_le_bytes()); // JSON version
    p.push(1); // varuint: one dynamic path
    p.extend_from_slice(&[1, b'a']);
    p.extend_from_slice(&2u64.to_le_bytes()); // Dynamic v2
    p.push(1); // varuint: one declared type
    p.extend_from_slice(&[5, b'U', b'I', b'n', b't', b'8']);
    p.extend_from_slice(&0u64.to_le_bytes()); // basic discriminators
    // sorted(["SharedVariant", "UInt8"]) puts UInt8 at index 1.
    p.extend_from_slice(&[1, 255]);
    p.push(8); // the one UInt8 value
    // Shared data: cumulative offsets, then the paths, then the values.
    p.extend_from_slice(&0u64.to_le_bytes());
    p.extend_from_slice(&(spilled.len() as u64).to_le_bytes());
    for (path, _) in spilled {
        p.push(u8::try_from(path.len()).expect("test paths stay under 128 bytes"));
        p.extend_from_slice(path.as_bytes());
    }
    for (_, value) in spilled {
        p.push(u8::try_from(value.len()).expect("test values stay under 128 bytes"));
        p.extend_from_slice(value.as_bytes());
    }
    p
}

/// `Variant(UInt8, String)`: mode word, discriminators, then each arm.
fn variant_payload() -> Vec<u8> {
    let mut p = Vec::new();
    p.extend_from_slice(&0u64.to_le_bytes()); // basic discriminators
    p.extend_from_slice(&[0, 1]); // row 0 = UInt8, row 1 = String
    p.push(7); // the one UInt8
    p.extend_from_slice(&[1, b'q']); // the one String
    p
}

/// Dynamic v2: version, type count, names, mode word, discriminators, data.
/// `SharedVariant` sorts ahead of `UInt8`, so discriminator 1 is the `UInt8`.
fn dynamic_v2_payload() -> Vec<u8> {
    let mut p = Vec::new();
    p.extend_from_slice(&2u64.to_le_bytes());
    p.push(1); // varuint: one declared type
    p.extend_from_slice(&[5, b'U', b'I', b'n', b't', b'8']);
    p.extend_from_slice(&0u64.to_le_bytes()); // basic discriminators
    p.extend_from_slice(&[1, 255]); // UInt8 then NULL
    p.push(3); // the one UInt8 value
    p
}

/// Dynamic v3: version, type count, names, then flat discriminators.
fn dynamic_v3_payload() -> Vec<u8> {
    let mut p = Vec::new();
    p.extend_from_slice(&3u64.to_le_bytes());
    p.push(1);
    p.extend_from_slice(&[5, b'U', b'I', b'n', b't', b'8']);
    p.extend_from_slice(&[0, 1]); // UInt8 then NULL (NULL == the type count)
    p.push(4);
    p
}

/// JSON v3: version, one path, the path's flattened Dynamic header, then
/// its discriminators and data.
fn json_v3_payload() -> Vec<u8> {
    let mut p = Vec::new();
    p.extend_from_slice(&3u64.to_le_bytes()); // JSON version
    p.push(1); // varuint: one dynamic path
    p.extend_from_slice(&[1, b'a']);
    p.extend_from_slice(&3u64.to_le_bytes()); // flattened Dynamic version
    p.push(1); // varuint: one type
    p.extend_from_slice(&[5, b'U', b'I', b'n', b't', b'8']);
    p.extend_from_slice(&[0, 1]); // UInt8 then NULL
    p.push(6);
    p
}

#[test]
fn read_column_consumes_exactly_the_declared_bytes() {
    for (type_text, wire, rows) in byte_exact_cases() {
        let col_type =
            ColumnType::parse(type_text).unwrap_or_else(|| panic!("{type_text} parses"));
        let (cells, end) = read_column(&wire, &col_type, rows)
            .unwrap_or_else(|e| panic!("{type_text}: {e:?}"));
        assert_eq!(
            end,
            wire.len(),
            "{type_text} did not consume its whole payload"
        );
        assert_eq!(cells.len() as u64, rows, "{type_text} row count");
    }
}

#[test]
fn array_column_rejects_offsets_beyond_the_element_count() {
    // Offsets [6, 5] step backwards, so row 1 would index past the elements
    // the column actually carries.
    let mut wire = Vec::new();
    wire.extend_from_slice(&6u64.to_le_bytes());
    wire.extend_from_slice(&5u64.to_le_bytes());
    wire.extend_from_slice(&[0u8; 5]);
    let col_type = ColumnType::Array(Box::new(ColumnType::UInt8));
    let err = read_column(&wire, &col_type, 2)
        .expect_err("a backwards offset must reject");
    assert!(err.message().contains("Array column offset"), "{err:?}");
}

#[test]
fn map_column_rejects_offsets_beyond_the_pair_count() {
    let mut wire = Vec::new();
    wire.extend_from_slice(&6u64.to_le_bytes());
    wire.extend_from_slice(&5u64.to_le_bytes());
    wire.extend_from_slice(&[0u8; 5]); // keys
    wire.extend_from_slice(&[0u8; 5]); // values
    let col_type = ColumnType::Mapping(Box::new(ColumnType::UInt8), Box::new(ColumnType::UInt8));
    let err = read_column(&wire, &col_type, 2)
        .expect_err("a backwards offset must reject");
    assert!(err.message().contains("Map column offset"), "{err:?}");
}

#[test]
fn dynamic_v3_null_discriminator_is_skipped() {
    // NULL is the type count itself in v3, so row 1 renders as `null` and
    // consumes no value byte.
    let col_type = ColumnType::Dynamic;
    let (cells, _) =
        read_column(&dynamic_v3_payload(), &col_type, 2).expect("v3 payload decodes");
    assert_eq!(cells[0], b"\x014".to_vec(), "row 0 is the UInt8 value");
    assert_eq!(cells[1], b"\x04null".to_vec(), "row 1 is NULL");
}

#[test]
fn a_zero_row_top_level_column_reads_no_bytes() {
    // `NativeWriter` writes no payload for a zero-row block, the
    // LowCardinality prefix included.
    let col_type = ColumnType::LowCardinality(Box::new(ColumnType::String));
    let (cells, end) =
        read_column(&[], &col_type, 0).expect("a zero-row column reads nothing");
    assert!(cells.is_empty());
    assert_eq!(end, 0);
}

#[test]
fn ipv6_renders_in_compressed_form() {
    let mut raw = [0u8; 16];
    raw[15] = 1;
    let json = rowbinary_to_json(&raw, &ColumnType::IPv6);
    assert_eq!(json, br#""::1""#.to_vec());
}

#[test]
fn ipv4_renders_in_dotted_quad_form() {
    let raw = 0x0100_007fu32.to_le_bytes();
    let json = rowbinary_to_json(&raw, &ColumnType::IPv4);
    assert_eq!(json, br#""1.0.0.127""#.to_vec());
}

#[test]
fn date_and_datetime_render_as_bare_wire_integers() {
    assert_eq!(
        rowbinary_to_json(&1u16.to_le_bytes(), &ColumnType::Date),
        b"1"
    );
    assert_eq!(
        rowbinary_to_json(&1u32.to_le_bytes(), &ColumnType::DateTime),
        b"1"
    );
}

#[test]
fn fixed_string_renders_as_raw_bytes_with_no_length_prefix() {
    let json = rowbinary_to_json(b"abc", &ColumnType::FixedString(3));
    assert_eq!(json, br#""abc""#.to_vec());
}

/// Build a RowBinary string cell: varuint length, then the bytes.
fn rb_string(s: &[u8]) -> Vec<u8> {
    let mut out = Vec::new();
    out.put_var_uint(s.len() as u64);
    out.extend_from_slice(s);
    out
}

/// Every rendering arm, driven through the type parser the decoder uses.
///
/// This is what turns a `Variant`, `Dynamic` or `JSON` cell into the text a
/// caller reads, so a wrong arm here is silently wrong data rather than a
/// failed query. The expectations are written from the wire format, not
/// from what the function currently returns.
#[test]
fn every_scalar_arm_renders_the_json_the_wire_asked_for() {
    let cases: &[(&str, Vec<u8>, &str)] = &[
        ("UInt8", vec![200], "200"),
        ("UInt16", 4_000u16.to_le_bytes().to_vec(), "4000"),
        ("UInt32", 70_000u32.to_le_bytes().to_vec(), "70000"),
        (
            "UInt64",
            5_000_000_000u64.to_le_bytes().to_vec(),
            "5000000000",
        ),
        // The signed arms reinterpret the unsigned wire byte.
        ("Int8", vec![0xff], "-1"),
        ("Int16", (-2i16).to_le_bytes().to_vec(), "-2"),
        ("Int32", (-3i32).to_le_bytes().to_vec(), "-3"),
        ("Int64", (-4i64).to_le_bytes().to_vec(), "-4"),
        ("Int128", (-5i128).to_le_bytes().to_vec(), "-5"),
        ("UInt128", 6u128.to_le_bytes().to_vec(), "6"),
        ("Enum8('a' = -1)", vec![0xff], "-1"),
        ("Float32", 1.5f32.to_le_bytes().to_vec(), "1.5"),
        ("Float64", (-2.25f64).to_le_bytes().to_vec(), "-2.25"),
        // BFloat16 is the top half of an f32's bits, so 0x3f80 is 1.0.
        ("BFloat16", 0x3f80u16.to_le_bytes().to_vec(), "1"),
        ("Decimal32(2)", 150i32.to_le_bytes().to_vec(), "150"),
        ("Decimal64(2)", 151i64.to_le_bytes().to_vec(), "151"),
        ("Date", 19_000u16.to_le_bytes().to_vec(), "19000"),
        ("Date32", 19_001i32.to_le_bytes().to_vec(), "19001"),
        (
            "DateTime",
            1_700_000_000u32.to_le_bytes().to_vec(),
            "1700000000",
        ),
        (
            "DateTime64(3)",
            1_700_000_000_123i64.to_le_bytes().to_vec(),
            "1700000000123",
        ),
        ("String", rb_string(b"hi"), r#""hi""#),
        ("FixedString(2)", b"ab".to_vec(), r#""ab""#),
        (
            "IPv4",
            0x0100_007fu32.to_le_bytes().to_vec(),
            r#""1.0.0.127""#,
        ),
        ("Nullable(UInt8)", vec![1], "null"),
        ("Nullable(UInt8)", vec![0, 9], "9"),
        ("LowCardinality(String)", rb_string(b"x"), r#""x""#),
        ("SimpleAggregateFunction(any, UInt8)", vec![3], "3"),
        ("Array(UInt8)", vec![2, 7, 8], "[7,8]"),
        ("Array(UInt8)", vec![0], "[]"),
        ("Tuple(UInt8, UInt8)", vec![1, 2], "[1,2]"),
        (
            "Point",
            {
                let mut v = 1.5f64.to_le_bytes().to_vec();
                v.extend_from_slice(&2.5f64.to_le_bytes());
                v
            },
            "[1.5,2.5]",
        ),
        (
            "Map(String, UInt8)",
            {
                let mut v = vec![1u8];
                v.extend_from_slice(&rb_string(b"k"));
                v.push(9);
                v
            },
            r#"{"k":9}"#,
        ),
    ];

    for (type_str, bytes, want) in cases {
        let ct = ColumnType::parse(type_str).unwrap_or_else(|| panic!("{type_str} parses"));
        let got = rowbinary_to_json(bytes, &ct);
        assert_eq!(
            String::from_utf8_lossy(&got),
            *want,
            "{type_str} rendered the wrong JSON"
        );
    }
}

/// A 32-byte integer has no JSON number form, so it renders as a hex string
/// with the wire's little-endian bytes reversed to reading order.
#[test]
fn a_256_bit_integer_renders_as_big_endian_hex() {
    let mut raw = [0u8; 32];
    raw[0] = 0xef;
    raw[1] = 0xbe;
    let json = rowbinary_to_json(&raw, &ColumnType::Int256);
    let text = String::from_utf8(json).unwrap();
    assert!(text.ends_with(r#"beef""#), "got {text}");
    assert_eq!(text.len(), 66, "quotes plus 64 hex digits");
}

/// The 16 bytes are TWO little-endian u64s, high half first -- not one
/// big-endian run -- so the rendered digits are not the byte order.
#[test]
fn a_uuid_renders_hyphenated_from_two_le_halves() {
    let mut raw = 0x0123_4567_89ab_cdefu64.to_le_bytes().to_vec();
    raw.extend_from_slice(&0xfedc_ba98_7654_3210u64.to_le_bytes());
    let json = rowbinary_to_json(&raw, &ColumnType::Uuid);
    assert_eq!(json, br#""01234567-89ab-cdef-fedc-ba9876543210""#);
}

/// NaN and infinity have no JSON form, so they render as `null` rather than
/// as text no JSON parser would accept.
#[test]
fn floats_without_a_json_form_render_as_null() {
    assert_eq!(
        rowbinary_to_json(&f64::NAN.to_le_bytes(), &ColumnType::Float64),
        b"null"
    );
    assert_eq!(
        rowbinary_to_json(&f64::INFINITY.to_le_bytes(), &ColumnType::Float64),
        b"null"
    );
    assert_eq!(
        rowbinary_to_json(&f32::NEG_INFINITY.to_le_bytes(), &ColumnType::Float32),
        b"null"
    );
}

/// A string cell is arbitrary bytes, so anything that would break out of a
/// JSON string has to be escaped -- including the control characters that
/// have no short form.
#[test]
fn string_rendering_escapes_what_would_break_the_json() {
    let raw = b"a\"b\\c\nd\re\tf\x01g";
    let json = rowbinary_to_json(&rb_string(raw), &ColumnType::String);
    // Concatenated rather than one literal: the expected text is itself
    // full of backslash escapes, and writing them inside a literal makes
    // the test read as though the escapes were the literal's own.
    let want = [
        "\"a", "\\\"", "b", "\\\\", "c", "\\n", "d", "\\r", "e", "\\t", "f", "\\u0001", "g\"",
    ]
    .concat();
    assert_eq!(String::from_utf8(json).unwrap(), want);
}

/// Every arm is best-effort: a truncated cell renders as `null` rather than
/// panicking or propagating, because one bad cell must not fail the block.
#[test]
fn a_truncated_cell_renders_as_null_in_every_arm() {
    let types = [
        "UInt64",
        "Int128",
        "Int256",
        "Float64",
        "BFloat16",
        "UUID",
        "IPv6",
        "Point",
        "String",
        "FixedString(4)",
        "Nullable(UInt8)",
        "Array(UInt8)",
        "Tuple(UInt8, UInt8)",
        "Map(String, UInt8)",
        "DateTime64(3)",
    ];
    for type_str in types {
        let ct = ColumnType::parse(type_str).unwrap_or_else(|| panic!("{type_str} parses"));
        // One byte short of anything useful, and empty.
        for cell in [b"\x01".as_slice(), b"".as_slice()] {
            assert_eq!(
                rowbinary_to_json(cell, &ct),
                b"null",
                "{type_str} did not fall back to null on a truncated cell"
            );
        }
    }
}

#[test]
fn index_width_matches_the_server_ladder() {
    // `getSmallestIndexesType(slots + 1)` keeps u8 up to 255 types.
    assert_eq!(index_width(0), 1);
    assert_eq!(index_width(254), 1);
    assert_eq!(index_width(255), 1);
    assert_eq!(index_width(256), 2);
    assert_eq!(index_width(65_535), 2);
    assert_eq!(index_width(65_536), 4);
}
