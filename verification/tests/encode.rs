//! The block encoder.

use clickhouse_dfe::native::columns::ColumnType;
use clickhouse_dfe::native::encode::{encode_columns, ColumnSchema};

fn u8_col() -> ColumnSchema {
    ColumnSchema {
        name: "n".to_string(),
        type_text: "UInt8".to_string(),
        col_type: ColumnType::UInt8,
    }
}

fn str_col() -> ColumnSchema {
    ColumnSchema {
        name: "s".to_string(),
        type_text: "String".to_string(),
        col_type: ColumnType::String,
    }
}

fn nullable_u8_col() -> ColumnSchema {
    ColumnSchema {
        name: "n".to_string(),
        type_text: "Nullable(UInt8)".to_string(),
        col_type: ColumnType::Nullable(Box::new(ColumnType::UInt8)),
    }
}

#[test]
fn test_encode_single_u8_column() {
    // Two rows: UInt8 values 1 and 2
    let rows = vec![vec![1u8], vec![2u8]];
    let cols = vec![u8_col()];
    let out = encode_columns(&rows, &cols, 0).unwrap();

    // string("n") = varuint(1) + "n"
    // string("UInt8") = varuint(5) + "UInt8"
    // data = [1, 2]
    let expected_name = b"\x01n";
    let expected_type = b"\x05UInt8";
    let expected_data = b"\x01\x02";
    assert!(out.starts_with(expected_name));
    let after_name = &out[expected_name.len()..];
    assert!(after_name.starts_with(expected_type));
    let after_type = &after_name[expected_type.len()..];
    assert_eq!(after_type, expected_data);
}

#[test]
fn test_encode_string_column() {
    // One row: String "hi"
    let mut row = Vec::new();
    row.push(0x02u8); // varuint(2)
    row.extend_from_slice(b"hi");
    let rows = vec![row.clone()];
    let cols = vec![str_col()];
    let out = encode_columns(&rows, &cols, 0).unwrap();
    // After header: the string bytes from RowBinary are passed through unchanged
    let after_hdr = out[b"\x01s\x06String".len()..].to_vec();
    assert_eq!(after_hdr, row);
}

#[test]
fn test_encode_nullable_u8_not_null() {
    // One row: Nullable(UInt8) = Some(42)
    // RowBinary: [0x00 (not null), 42]
    let rows = vec![vec![0x00u8, 42u8]];
    let cols = vec![nullable_u8_col()];
    let out = encode_columns(&rows, &cols, 0).unwrap();
    // After header: [0x00 (null flag)] then [42 (value)]
    let hdr_len = b"\x01n\x10Nullable(UInt8)".len();
    let data = &out[hdr_len..];
    assert_eq!(data, &[0x00u8, 42u8]); // flag then value
}

#[test]
fn test_encode_nullable_u8_null() {
    // One row: Nullable(UInt8) = None
    // RowBinary: [0x01 (null)]
    let rows = vec![vec![0x01u8]];
    let cols = vec![nullable_u8_col()];
    let out = encode_columns(&rows, &cols, 0).unwrap();
    // After header: [0x01 (null flag)] then [0x00 (zero default value)]
    let hdr_len = b"\x01n\x10Nullable(UInt8)".len();
    let data = &out[hdr_len..];
    assert_eq!(data, &[0x01u8, 0x00u8]);
}

#[test]
fn json_column_is_declared_and_written_as_string() {
    let cols = ColumnSchema::from_headers(&[("j".to_string(), "JSON".to_string())]).unwrap();
    let rows = vec![b"\x02{}".to_vec(), b"\x07{\"a\":1}".to_vec()];
    let out = encode_columns(&rows, &cols, 0).unwrap();
    assert_eq!(out.as_slice(), b"\x01j\x06String\x02{}\x07{\"a\":1}");
}

#[test]
fn encode_columns_rejects_trailing_rowbinary_bytes() {
    // Regression: encode_columns previously processed columns.len()
    // fields per row and silently ignored trailing RowBinary bytes.
    // If a caller passes T=(id,name) with columns=[id], the encoder
    // would silently drop name's bytes -- silent data loss on both
    // HTTP `with_columns` and TCP `with_columns_tcp` dynamic ctors.
    // Guard: after the inner per-column loop, the encoder must
    // verify pos == row.len() and error if not.
    let rows = vec![vec![1u8, 2u8]]; // 2 bytes, but only 1 column declared
    let cols = vec![ColumnSchema {
        name: "x".to_string(),
        type_text: "UInt8".to_string(),
        col_type: ColumnType::UInt8,
    }];
    let Err(err) = encode_columns(&rows, &cols, 0) else {
        panic!("trailing RowBinary bytes must reject")
    };
    let msg = err.message();
    assert!(
        msg.contains("trailing") || msg.contains("leftover"),
        "expected trailing-byte error, got: {msg}",
    );
}

fn schema(type_text: &str) -> Vec<ColumnSchema> {
    ColumnSchema::from_headers(&[("c".to_string(), type_text.to_string())])
        .expect("schema parses")
}

/// Strip the `varuint("c") + varuint(type_text)` column header.
fn body(out: &[u8], type_text: &str) -> Vec<u8> {
    let header = 2 + 1 + type_text.len();
    out[header..].to_vec()
}

#[test]
fn encode_tuple_writes_one_subcolumn_per_field() {
    // Two rows of (UInt8, UInt16): all the u8s, then all the u16s.
    let rows = vec![vec![1u8, 2, 0], vec![3u8, 4, 0]];
    let out = encode_columns(&rows, &schema("Tuple(UInt8, UInt16)"), 0).expect("encodes");
    assert_eq!(
        body(&out, "Tuple(UInt8, UInt16)"),
        vec![1, 3, /* u16s */ 2, 0, 4, 0]
    );
}

#[test]
fn encode_map_writes_offsets_then_keys_then_values() {
    // One row: {1: 2, 3: 4}. RowBinary is varuint(count) + k,v pairs.
    let rows = vec![vec![2u8, 1, 2, 3, 4]];
    let out = encode_columns(&rows, &schema("Map(UInt8, UInt8)"), 0).expect("encodes");
    let mut expected = 2u64.to_le_bytes().to_vec();
    expected.extend_from_slice(&[1, 3]); // keys
    expected.extend_from_slice(&[2, 4]); // values
    assert_eq!(body(&out, "Map(UInt8, UInt8)"), expected);
}

#[test]
fn encode_rejects_truncated_array_row() {
    // The row claims three elements and carries one.
    let rows = vec![vec![3u8, 9]];
    let err = encode_columns(&rows, &schema("Array(UInt8)"), 0)
        .expect_err("a truncated array row must reject");
    assert!(err.message().contains("truncated"), "{err:?}");
}

#[test]
fn encode_empty_rows_writes_no_prefix() {
    // A zero-row block carries no column payload at all, so the encoder
    // must not emit a LowCardinality prefix for one.
    let out = encode_columns(&[], &schema("LowCardinality(String)"), 0).expect("encodes");
    assert!(out.is_empty(), "got {out:?}");
}

#[test]
fn encode_lowcardinality_picks_the_narrowest_index_width() {
    // Two distinct keys fit a u8 index, so flags carry index code 0.
    let rows = vec![vec![1u8, b'a'], vec![1u8, b'b'], vec![1u8, b'a']];
    let out = encode_columns(&rows, &schema("LowCardinality(String)"), 0).expect("encodes");
    let data = body(&out, "LowCardinality(String)");
    assert_eq!(&data[..8], &1u64.to_le_bytes(), "version");
    assert_eq!(&data[8..16], &0x200u64.to_le_bytes(), "additional keys, u8");
    assert_eq!(&data[16..24], &2u64.to_le_bytes(), "dictionary size");
}
