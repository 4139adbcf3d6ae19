//! The typed block decoder, on blocks that the encoder wrote and on blocks
//! written by hand.

use std::io::Cursor;

use clickhouse_dfe::error::Error;
use clickhouse_dfe::native::buffers::ClickHouseBytesWrite;
use clickhouse_dfe::native::columns::ColumnType;
use clickhouse_dfe::native::decode::{MAX_BLOCK_COLUMNS, MAX_BLOCK_ROWS, MAX_DECODE_DEPTH};
use clickhouse_dfe::native::decoded::{DecodedBlock, DecodedColumn, DoubleBits, SingleBits};
use clickhouse_dfe::native::encode::{encode_columns, ColumnSchema};
use clickhouse_dfe::native::io::Wire;
use clickhouse_dfe::native::texts::{CellKey, CellTexts};

/// The most that one column buffer may claim.
const BUDGET: usize = isize::MAX as usize;

/// The text of a floating point cell: the number as a double, without an
/// exponent.
fn float_text(key: CellKey) -> Vec<u8> {
    match key {
        CellKey::Single(bits) => format!("{}", f64::from(f32::from_bits(bits))).into_bytes(),
        CellKey::Double(bits) => format!("{}", f64::from_bits(bits)).into_bytes(),
    }
}

/// Run `read` on what is left of the bytes, supplying the texts it asks for.
fn with_texts<T>(
    cur: &mut Cursor<Vec<u8>>,
    read: impl Fn(&Wire, usize) -> Result<(T, usize), Error>,
) -> Result<T, Error> {
    let mut texts = CellTexts::new();
    let pos = usize::try_from(cur.position()).expect("a position");
    loop {
        let outcome = {
            let w = Wire { data: cur.get_ref(), texts: &texts, budget: BUDGET };
            read(&w, pos)
        };
        match outcome {
            Ok((value, end)) => {
                cur.set_position(end as u64);
                return Ok(value);
            }
            Err(Error::TextNeeded(key)) => texts.supply(key, float_text(key)),
            Err(e) => return Err(e),
        }
    }
}

fn decode_block(
    cur: &mut Cursor<Vec<u8>>,
    num_columns: u64,
    num_rows: u64,
    revision: u64,
) -> Result<DecodedBlock, Error> {
    with_texts(cur, |w, pos| {
        clickhouse_dfe::native::decode::decode_block(w, pos, num_columns, num_rows, revision)
    })
}

fn decode_column(
    cur: &mut Cursor<Vec<u8>>,
    col_type: &ColumnType,
    num_rows: u64,
    depth: usize,
) -> Result<DecodedColumn, Error> {
    with_texts(cur, |w, pos| {
        clickhouse_dfe::native::decode::decode_column(w, pos, col_type, num_rows, depth)
    })
}

// A current TCP revision, above the custom-serialization gate. Inlined so
// these tests build without the `tcp` feature.
const REV: u64 = 54459;

/// Encode a single-column block body: the column-payload bytes alone, since
/// `decode_block` takes the `(num_columns, num_rows)` pair as parameters.
fn encode_one_column_block(name: &str, type_text: &str, rows: &[Vec<u8>]) -> Vec<u8> {
    let schema = ColumnSchema::from_headers(&[(name.to_string(), type_text.to_string())])
        .expect("schema parses");
    encode_columns(rows, &schema, REV).expect("encode succeeds")
}

fn decode_via_cursor(bytes: Vec<u8>, num_rows: u64) -> DecodedBlock {
    let mut cur = Cursor::new(bytes);
    decode_block(&mut cur, 1, num_rows, REV).unwrap()
}

#[test]
fn roundtrip_uint64() {
    let rows: Vec<Vec<u8>> = (0u64..5).map(|v| v.to_le_bytes().to_vec()).collect();
    let bytes = encode_one_column_block("n", "UInt64", &rows);
    let block = decode_via_cursor(bytes, 5);
    match &block.columns[0] {
        DecodedColumn::UInt64(values) => assert_eq!(values, &vec![0u64, 1, 2, 3, 4]),
        other => panic!("expected UInt64, got {other:?}"),
    }
    assert_eq!(block.schema[0], ("n".to_string(), "UInt64".to_string()));
    assert_eq!(block.num_rows, 5);
}

/// The serialization the server picks under
/// `output_format_native_write_json_as_string=1`: u64 version 1, then one
/// length-prefixed document per row.
#[test]
fn json_column_reads_as_string() {
    let docs = [r#"{"a":1}"#, r#"{"b":"x"}"#];
    let mut body: Vec<u8> = Vec::new();
    body.put_string(b"j");
    body.put_string(b"JSON");
    body.push(0); // custom-serialization flag
    body.extend_from_slice(&1u64.to_le_bytes());
    for doc in docs {
        body.put_string(doc.as_bytes());
    }

    let block = decode_via_cursor(body, docs.len() as u64);
    assert_eq!(block.column_as::<String>("j").unwrap(), docs);
}

/// A zero-row block carries no column bytes at all, so the JSON arm must
/// not reach for a serialization version that is not on the wire.
#[test]
fn json_header_block_consumes_no_column_bytes() {
    let mut body: Vec<u8> = Vec::new();
    body.put_string(b"j");
    body.put_string(b"JSON");
    body.push(0);

    let block = decode_via_cursor(body, 0);
    assert!(block.column_as::<String>("j").unwrap().is_empty());
}

#[test]
fn roundtrip_int32_signed() {
    let rows: Vec<Vec<u8>> = [-3i32, -1, 0, 7, 99]
        .iter()
        .map(|v| v.to_le_bytes().to_vec())
        .collect();
    let bytes = encode_one_column_block("v", "Int32", &rows);
    let block = decode_via_cursor(bytes, 5);
    match &block.columns[0] {
        DecodedColumn::Int32(values) => assert_eq!(values, &vec![-3i32, -1, 0, 7, 99]),
        other => panic!("expected Int32, got {other:?}"),
    }
}

#[test]
fn roundtrip_string() {
    // RowBinary for String: varuint(len) + bytes.
    let strings = ["", "hello", "wide \u{1F600}", "trailing"];
    let rows: Vec<Vec<u8>> = strings
        .iter()
        .map(|s| {
            let mut v = Vec::new();
            let mut len = s.len() as u64;
            loop {
                let byte = (len & 0x7F) as u8;
                len >>= 7;
                if len == 0 {
                    v.push(byte);
                    break;
                }
                v.push(byte | 0x80);
            }
            v.extend_from_slice(s.as_bytes());
            v
        })
        .collect();
    let bytes = encode_one_column_block("s", "String", &rows);
    let block = decode_via_cursor(bytes, strings.len() as u64);
    match &block.columns[0] {
        DecodedColumn::String(values) => {
            let decoded: Vec<&str> = values
                .iter()
                .map(|v| std::str::from_utf8(v).unwrap())
                .collect();
            assert_eq!(decoded, strings);
        }
        other => panic!("expected String, got {other:?}"),
    }
}

#[test]
fn roundtrip_fixed_string() {
    let raw = b"abcdefghij"; // 10 bytes, two rows of width 5
    let rows: Vec<Vec<u8>> = raw.chunks(5).map(<[u8]>::to_vec).collect();
    let bytes = encode_one_column_block("f", "FixedString(5)", &rows);
    let block = decode_via_cursor(bytes, 2);
    match &block.columns[0] {
        DecodedColumn::FixedString { width, bytes } => {
            assert_eq!(*width, 5);
            assert_eq!(bytes, raw);
        }
        other => panic!("expected FixedString, got {other:?}"),
    }
}

#[test]
fn roundtrip_nullable_uint8() {
    // RowBinary Nullable is a flag byte, and a value only when not null;
    // the encoder zero-fills the null slot, so the child reads [42, 0, 7].
    let rows: Vec<Vec<u8>> = vec![
        vec![0, 42], // value 42
        vec![1],     // null (flag only, canonical RowBinary)
        vec![0, 7],  // value 7
    ];
    let bytes = encode_one_column_block("n", "Nullable(UInt8)", &rows);
    let block = decode_via_cursor(bytes, 3);
    match &block.columns[0] {
        DecodedColumn::Nullable { mask, child } => {
            assert_eq!(mask, &vec![0u8, 1, 0]);
            match child.as_ref() {
                DecodedColumn::UInt8(values) => {
                    // The middle slot's value is the default (0)
                    // because the encoder zero-fills null slots.
                    assert_eq!(values, &vec![42u8, 0, 7]);
                }
                other => panic!("expected UInt8 child, got {other:?}"),
            }
        }
        other => panic!("expected Nullable, got {other:?}"),
    }
}

#[test]
fn roundtrip_array_uint64() {
    // RowBinary Array<UInt64>: varuint(count) + count x u64 LE.
    let varuint = |mut v: u64, out: &mut Vec<u8>| loop {
        let b = (v & 0x7F) as u8;
        v >>= 7;
        if v == 0 {
            out.push(b);
            break;
        }
        out.push(b | 0x80);
    };
    let arrays: [&[u64]; 3] = [&[1, 2, 3], &[], &[42]];
    let rows: Vec<Vec<u8>> = arrays
        .iter()
        .map(|arr| {
            let mut v = Vec::new();
            varuint(arr.len() as u64, &mut v);
            for x in *arr {
                v.extend_from_slice(&x.to_le_bytes());
            }
            v
        })
        .collect();
    let bytes = encode_one_column_block("a", "Array(UInt64)", &rows);
    let block = decode_via_cursor(bytes, 3);
    match &block.columns[0] {
        DecodedColumn::Array { offsets, child } => {
            assert_eq!(offsets, &vec![3u64, 3, 4]);
            match child.as_ref() {
                DecodedColumn::UInt64(values) => {
                    assert_eq!(values, &vec![1u64, 2, 3, 42]);
                }
                other => panic!("expected UInt64 child, got {other:?}"),
            }
        }
        other => panic!("expected Array, got {other:?}"),
    }
}

#[test]
fn roundtrip_lowcardinality_string() {
    // RowBinary for LC(String) is just String RowBinary -- the
    // LC dictionary lives only on the Native wire side.
    let varuint = |mut v: u64, out: &mut Vec<u8>| loop {
        let b = (v & 0x7F) as u8;
        v >>= 7;
        if v == 0 {
            out.push(b);
            break;
        }
        out.push(b | 0x80);
    };
    let strings = ["foo", "bar", "foo", "baz", "bar"];
    let rows: Vec<Vec<u8>> = strings
        .iter()
        .map(|s| {
            let mut v = Vec::new();
            varuint(s.len() as u64, &mut v);
            v.extend_from_slice(s.as_bytes());
            v
        })
        .collect();
    let bytes = encode_one_column_block("lc", "LowCardinality(String)", &rows);
    let block = decode_via_cursor(bytes, 5);
    match &block.columns[0] {
        DecodedColumn::LowCardinality {
            dict,
            indices,
            is_nullable_inner,
        } => {
            assert!(!*is_nullable_inner);
            match dict.as_ref() {
                DecodedColumn::String(dict_strings) => {
                    // The dictionary order is encoder-implementation-
                    // defined; assert membership rather than order.
                    let mut set: std::collections::HashSet<&[u8]> =
                        dict_strings.iter().map(Vec::as_slice).collect();
                    assert!(set.remove(b"foo".as_slice()));
                    assert!(set.remove(b"bar".as_slice()));
                    assert!(set.remove(b"baz".as_slice()));
                }
                other => panic!("expected String dict, got {other:?}"),
            }
            // Cross-check by walking the index column and
            // reconstructing the row strings.
            let reconstructed = lc_to_strings(dict.as_ref(), indices.as_ref());
            assert_eq!(reconstructed, strings);
        }
        other => panic!("expected LowCardinality, got {other:?}"),
    }
}

fn lc_to_strings(dict: &DecodedColumn, indices: &DecodedColumn) -> Vec<String> {
    let DecodedColumn::String(dict_strings) = dict else {
        panic!("dict must be String")
    };
    let idxs: Vec<usize> = match indices {
        DecodedColumn::UInt8(v) => v.iter().map(|&x| usize::from(x)).collect(),
        DecodedColumn::UInt16(v) => v.iter().map(|&x| usize::from(x)).collect(),
        DecodedColumn::UInt32(v) => v.iter().map(|&x| x as usize).collect(),
        DecodedColumn::UInt64(v) => v.iter().map(|&x| usize::try_from(x).unwrap()).collect(),
        _ => panic!("indices must be unsigned int"),
    };
    idxs.into_iter()
        .map(|i| String::from_utf8(dict_strings[i].clone()).unwrap())
        .collect()
}

#[test]
fn rejects_unknown_column_type() {
    // Hand-craft a single-column block body whose type_text is
    // not a recognised ColumnType.
    let mut bytes = Vec::new();
    bytes.put_string(b"x");
    bytes.put_string(b"DefinitelyNotAType");
    // Custom-serialisation flag byte for modern revisions.
    bytes.push(0u8);
    let mut cur = Cursor::new(bytes);
    let err = decode_block(&mut cur, 1, 0, REV).unwrap_err();
    match err {
        Error::BadResponse(msg) => {
            assert!(msg.contains("unknown column type"), "got: {msg}");
        }
        other => panic!("expected BadResponse, got {other:?}"),
    }
}

#[test]
fn rejects_nonzero_custom_serialization_flag() {
    let mut bytes = Vec::new();
    bytes.put_string(b"x");
    bytes.put_string(b"UInt8");
    // Non-zero flag -- not normal serialisation.
    bytes.push(7u8);
    let mut cur = Cursor::new(bytes);
    let err = decode_block(&mut cur, 1, 0, REV).unwrap_err();
    match err {
        Error::BadResponse(msg) => {
            assert!(msg.contains("custom serialization flag"), "got: {msg}");
        }
        other => panic!("expected BadResponse, got {other:?}"),
    }
}

#[test]
fn row_count_matches_inner_buffers() {
    let rows: Vec<Vec<u8>> = (0u32..8).map(|v| v.to_le_bytes().to_vec()).collect();
    let bytes = encode_one_column_block("v", "UInt32", &rows);
    let block = decode_via_cursor(bytes, 8);
    assert_eq!(block.columns[0].row_count(), 8);
}

#[test]
fn parse_column_type_via_columns_module() {
    for ty in [
        "UInt8",
        "UInt64",
        "Int32",
        "String",
        "FixedString(8)",
        "Nullable(UInt32)",
        "Array(UInt64)",
        "Tuple(UInt8, String)",
        "Map(String, UInt64)",
        "LowCardinality(String)",
        "LowCardinality(Nullable(String))",
        "DateTime",
        "DateTime64(3)",
        "UUID",
        "IPv4",
        "IPv6",
    ] {
        assert!(ColumnType::parse(ty).is_some(), "{ty}");
    }
}

#[test]
fn decode_column_rejects_excessive_nesting() {
    // Array(Array(...Array(UInt8)...)) deeper than the cap, built past the
    // parser, which caps separately. Entry is at depth 1 because the
    // zero-row short circuit only applies to a top-level column; each Array
    // level then reads no offset bytes, so an empty reader drives the
    // recursion all the way to the depth guard.
    let mut ct = ColumnType::UInt8;
    for _ in 0..(MAX_DECODE_DEPTH + 5) {
        ct = ColumnType::Array(Box::new(ct));
    }
    let mut cur = Cursor::new(Vec::new());
    let err = decode_column(&mut cur, &ct, 0, 1).unwrap_err();
    match err {
        Error::BadResponse(msg) => assert!(msg.contains("nesting"), "got: {msg}"),
        other => panic!("expected BadResponse, got {other:?}"),
    }
}

#[test]
fn lowcardinality_rejects_zero_flags() {
    // A LowCardinality payload with neither the global-dictionary
    // nor additional-keys flag set is a shape no current server
    // emits; the decoder rejects it rather than guessing a layout.
    let mut bytes = Vec::new();
    bytes.extend_from_slice(&1u64.to_le_bytes()); // version
    bytes.extend_from_slice(&0u64.to_le_bytes()); // flags = 0
    let ct = ColumnType::LowCardinality(Box::new(ColumnType::String));
    let mut cur = Cursor::new(bytes);
    let err = decode_column(&mut cur, &ct, 1, 0).unwrap_err();
    match err {
        Error::BadResponse(msg) => assert!(msg.contains("neither"), "got: {msg}"),
        other => panic!("expected BadResponse, got {other:?}"),
    }
}

/// Build a one-column Native block body (name "c", the given type,
/// the custom-serialization flag byte, then `payload`) and decode
/// it. REV is above the custom-serialization gate, so the flag byte
/// is present on the wire.
fn decode_one_typed(type_text: &str, num_rows: u64, payload: &[u8]) -> DecodedColumn {
    let mut buf = Vec::new();
    buf.put_string(b"c");
    buf.put_string(type_text.as_bytes());
    buf.push(0u8); // custom-serialization flag
    buf.extend_from_slice(payload);
    let mut cur = Cursor::new(buf);
    let mut block = decode_block(&mut cur, 1, num_rows, REV).unwrap();
    block.columns.pop().unwrap()
}

fn le_bytes_i128(vals: &[i128]) -> Vec<u8> {
    vals.iter().flat_map(|v| v.to_le_bytes()).collect()
}

#[test]
fn roundtrip_int128() {
    let vals = [1i128, -2, i128::MAX, i128::MIN];
    match decode_one_typed("Int128", vals.len() as u64, &le_bytes_i128(&vals)) {
        DecodedColumn::Int128(v) => assert_eq!(v, vals),
        other => panic!("expected Int128, got {other:?}"),
    }
}

#[test]
fn roundtrip_uint128() {
    let vals = [0u128, 1, u128::MAX];
    let payload: Vec<u8> = vals.iter().flat_map(|v| v.to_le_bytes()).collect();
    match decode_one_typed("UInt128", vals.len() as u64, &payload) {
        DecodedColumn::UInt128(v) => assert_eq!(v, vals),
        other => panic!("expected UInt128, got {other:?}"),
    }
}

#[test]
fn roundtrip_int256_raw_le() {
    // Two raw 32-byte LE values: 1, and a value with the top byte set.
    let mut a = [0u8; 32];
    a[0] = 1;
    let mut b = [0u8; 32];
    b[31] = 0x80;
    let payload: Vec<u8> = a.iter().chain(b.iter()).copied().collect();
    match decode_one_typed("Int256", 2, &payload) {
        DecodedColumn::Int256(v) => assert_eq!(v, vec![a, b]),
        other => panic!("expected Int256, got {other:?}"),
    }
}

#[test]
fn roundtrip_decimal64_as_backing_int() {
    // Decimal(18, 4) decodes to its backing i64 (12345 == 1.2345) and
    // surfaces precision=18 + scale=4 from the type name.
    let vals = [12345i64, -67890, 0];
    let payload: Vec<u8> = vals.iter().flat_map(|v| v.to_le_bytes()).collect();
    match decode_one_typed("Decimal(18, 4)", vals.len() as u64, &payload) {
        DecodedColumn::Decimal64 {
            precision,
            scale,
            values,
        } => {
            assert_eq!(values, vals);
            assert_eq!(precision, 18);
            assert_eq!(scale, 4);
        }
        other => panic!("expected Decimal64, got {other:?}"),
    }
}

#[test]
fn decimal_sized_form_implies_precision() {
    // The sized form Decimal64(4) carries only scale on the wire-type
    // name; precision is implied by the backing width (64-bit -> 18).
    let vals = [1i64, 2, 3];
    let payload: Vec<u8> = vals.iter().flat_map(|v| v.to_le_bytes()).collect();
    match decode_one_typed("Decimal64(4)", vals.len() as u64, &payload) {
        DecodedColumn::Decimal64 {
            precision, scale, ..
        } => {
            assert_eq!(precision, 18, "Decimal64 implies precision 18");
            assert_eq!(scale, 4);
        }
        other => panic!("expected Decimal64, got {other:?}"),
    }
}

#[test]
fn datetime64_surfaces_precision_and_timezone() {
    // DateTime64(3, 'UTC') decodes Int64 ticks and surfaces both the
    // sub-second precision (3) and the IANA timezone ('UTC').
    let vals = [1_700_000_000_000i64, 0, -1];
    let payload: Vec<u8> = vals.iter().flat_map(|v| v.to_le_bytes()).collect();
    match decode_one_typed("DateTime64(3, 'UTC')", vals.len() as u64, &payload) {
        DecodedColumn::DateTime64 {
            precision,
            timezone,
            values,
        } => {
            assert_eq!(values, vals);
            assert_eq!(precision, 3);
            assert_eq!(timezone.as_deref(), Some("UTC"));
        }
        other => panic!("expected DateTime64, got {other:?}"),
    }
    // Without a timezone arg the field is None.
    match decode_one_typed("DateTime64(9)", 0, &[]) {
        DecodedColumn::DateTime64 {
            precision,
            timezone,
            ..
        } => {
            assert_eq!(precision, 9);
            assert!(timezone.is_none());
        }
        other => panic!("expected DateTime64, got {other:?}"),
    }
}

#[test]
fn roundtrip_date32_signed_days() {
    let vals = [0i32, 19_000, -1]; // epoch, ~2022, one day pre-epoch
    let payload: Vec<u8> = vals.iter().flat_map(|v| v.to_le_bytes()).collect();
    match decode_one_typed("Date32", vals.len() as u64, &payload) {
        DecodedColumn::Date32(v) => assert_eq!(v, vals),
        other => panic!("expected Date32, got {other:?}"),
    }
}

#[test]
fn roundtrip_float64_nan_inf() {
    let vals = [f64::NAN, f64::INFINITY, f64::NEG_INFINITY, 1.5];
    let payload: Vec<u8> = vals.iter().flat_map(|v| v.to_le_bytes()).collect();
    match decode_one_typed("Float64", vals.len() as u64, &payload) {
        DecodedColumn::Float64(v) => {
            // Bit patterns, not values: a `Float64` column must survive
            // the wire byte for byte, and NaN never compares equal.
            assert!(f64::from_bits(v[0]).is_nan());
            assert_eq!(v[1], f64::INFINITY.to_bits());
            assert_eq!(v[2], f64::NEG_INFINITY.to_bits());
            assert_eq!(v[3], 1.5f64.to_bits());
        }
        other => panic!("expected Float64, got {other:?}"),
    }
}

/// `LowCardinality(String)` column body at an explicit index-size code
/// (0=u8, 1=u16, 2=u32, 3=u64), so all four widths are reachable without a
/// dictionary big enough to force them.
// Narrowing IS the payload: an index is written at the width `index_code`
// declares, and a dict entry's length byte is the varuint prefix.
fn lc_string_payload(index_code: u8, dict: &[&str], idx: &[u64]) -> Vec<u8> {
    let mut p = Vec::new();
    p.extend_from_slice(&1u64.to_le_bytes()); // version
    let flags = 0x200u64 | u64::from(index_code); // HAS_ADDITIONAL_KEYS | code
    p.extend_from_slice(&flags.to_le_bytes());
    // Additional keys: count, then each String as varuint(len)+bytes
    // (all test dict entries are < 128 bytes -> single length byte).
    p.extend_from_slice(&(dict.len() as u64).to_le_bytes());
    for s in dict {
        assert!(s.len() < 128, "test dict entries stay single-byte-len");
        p.push(s.len() as u8);
        p.extend_from_slice(s.as_bytes());
    }
    // Index count, then indices at the chosen width.
    p.extend_from_slice(&(idx.len() as u64).to_le_bytes());
    for &i in idx {
        match index_code {
            0 => p.push(i as u8),
            1 => p.extend_from_slice(&(i as u16).to_le_bytes()),
            2 => p.extend_from_slice(&(i as u32).to_le_bytes()),
            3 => p.extend_from_slice(&i.to_le_bytes()),
            other => panic!("bad index code {other}"),
        }
    }
    p
}

#[test]
fn lowcardinality_decodes_all_index_widths() {
    // One logical column at all four index widths; a width misread desyncs
    // the rest of the block rather than failing loudly.
    let dict = ["a", "b", "c"];
    let idx = [0u64, 1, 0, 2];
    for code in 0u8..=3 {
        let payload = lc_string_payload(code, &dict, &idx);
        let col = decode_one_typed("LowCardinality(String)", idx.len() as u64, &payload);
        match col {
            DecodedColumn::LowCardinality {
                dict,
                indices,
                is_nullable_inner,
            } => {
                assert!(!is_nullable_inner, "code {code}");
                let got = lc_to_strings(dict.as_ref(), indices.as_ref());
                assert_eq!(got, vec!["a", "b", "a", "c"], "index code {code}");
                let width_ok = matches!(
                    (code, indices.as_ref()),
                    (0, DecodedColumn::UInt8(_))
                        | (1, DecodedColumn::UInt16(_))
                        | (2, DecodedColumn::UInt32(_))
                        | (3, DecodedColumn::UInt64(_))
                );
                assert!(width_ok, "wrong index variant for code {code}");
            }
            other => panic!("expected LowCardinality, got {other:?}"),
        }
    }
}

#[test]
fn lowcardinality_nullable_index_zero_is_null() {
    // LC(Nullable(String)) reserves dictionary slot 0 as the NULL sentinel;
    // the decoder flags it and leaves the null reading to the caller.
    let dict = ["", "x", "y"]; // slot 0 = null placeholder
    let idx = [0u64, 1, 0, 2];
    let payload = lc_string_payload(0, &dict, &idx);
    let col = decode_one_typed(
        "LowCardinality(Nullable(String))",
        idx.len() as u64,
        &payload,
    );
    match col {
        DecodedColumn::LowCardinality {
            dict,
            indices,
            is_nullable_inner,
        } => {
            assert!(is_nullable_inner, "Nullable inner must be flagged");
            let idxs = match indices.as_ref() {
                DecodedColumn::UInt8(v) => v.clone(),
                other => panic!("expected UInt8 indices, got {other:?}"),
            };
            let nulls: Vec<bool> = idxs.iter().map(|&i| i == 0).collect();
            assert_eq!(nulls, vec![true, false, true, false]);
            match dict.as_ref() {
                DecodedColumn::String(d) => assert_eq!(d.len(), 3),
                other => panic!("expected String dict, got {other:?}"),
            }
        }
        other => panic!("expected LowCardinality, got {other:?}"),
    }
}

#[test]
fn roundtrip_nested_array_array_uint64() {
    // [[1,2],[3]] and [[4,5,6]]: outer offsets count inner arrays, inner
    // offsets count u64s, both cumulative.
    let mut payload = Vec::new();
    for v in [2u64, 3] {
        payload.extend_from_slice(&v.to_le_bytes()); // outer offsets
    }
    for v in [2u64, 3, 6] {
        payload.extend_from_slice(&v.to_le_bytes()); // inner offsets
    }
    for v in [1u64, 2, 3, 4, 5, 6] {
        payload.extend_from_slice(&v.to_le_bytes()); // u64 values
    }
    let col = decode_one_typed("Array(Array(UInt64))", 2, &payload);
    match col {
        DecodedColumn::Array { offsets, child } => {
            assert_eq!(offsets, vec![2u64, 3]);
            match child.as_ref() {
                DecodedColumn::Array {
                    offsets: inner_off,
                    child: inner_child,
                } => {
                    assert_eq!(inner_off, &vec![2u64, 3, 6]);
                    match inner_child.as_ref() {
                        DecodedColumn::UInt64(v) => {
                            assert_eq!(v, &vec![1u64, 2, 3, 4, 5, 6]);
                        }
                        other => panic!("expected UInt64, got {other:?}"),
                    }
                }
                other => panic!("expected inner Array, got {other:?}"),
            }
        }
        other => panic!("expected Array, got {other:?}"),
    }
}

// The single-byte key lengths ARE the varuint prefix -- every test key is
// one byte long.
#[test]
fn roundtrip_map_string_uint64() {
    // {"a":1,"b":2} and {"c":3}: cumulative pair offsets, then a flat keys
    // column, then a flat values column.
    let mut payload = Vec::new();
    for v in [2u64, 3] {
        payload.extend_from_slice(&v.to_le_bytes()); // offsets
    }
    for s in ["a", "b", "c"] {
        payload.push(s.len() as u8); // varuint len (< 128)
        payload.extend_from_slice(s.as_bytes());
    }
    for v in [1u64, 2, 3] {
        payload.extend_from_slice(&v.to_le_bytes()); // values
    }
    let col = decode_one_typed("Map(String, UInt64)", 2, &payload);
    match col {
        DecodedColumn::Mapping {
            offsets,
            keys,
            values,
        } => {
            assert_eq!(offsets, vec![2u64, 3]);
            match keys.as_ref() {
                DecodedColumn::String(k) => {
                    let ks: Vec<&str> =
                        k.iter().map(|b| std::str::from_utf8(b).unwrap()).collect();
                    assert_eq!(ks, vec!["a", "b", "c"]);
                }
                other => panic!("expected String keys, got {other:?}"),
            }
            match values.as_ref() {
                DecodedColumn::UInt64(v) => assert_eq!(v, &vec![1u64, 2, 3]),
                other => panic!("expected UInt64 values, got {other:?}"),
            }
        }
        other => panic!("expected Map, got {other:?}"),
    }
}

#[test]
fn nullable_all_null_uint8() {
    // n mask bytes (1 = null) then the child column, all-null this time.
    let payload = vec![1u8, 1, 1, /* child */ 0, 0, 0];
    let col = decode_one_typed("Nullable(UInt8)", 3, &payload);
    match col {
        DecodedColumn::Nullable { mask, child } => {
            assert_eq!(mask, vec![1u8, 1, 1]);
            match child.as_ref() {
                DecodedColumn::UInt8(v) => assert_eq!(v, &vec![0u8, 0, 0]),
                other => panic!("expected UInt8 child, got {other:?}"),
            }
        }
        other => panic!("expected Nullable, got {other:?}"),
    }
}

/// One-column block with the given declared type and decoded values.
fn block_of(type_text: &str, column: DecodedColumn) -> DecodedBlock {
    let num_rows = column.row_count() as u64;
    DecodedBlock {
        columns: vec![column],
        schema: vec![("c".to_string(), type_text.to_string())],
        num_rows,
    }
}

fn strings(values: &[&str]) -> DecodedColumn {
    DecodedColumn::String(values.iter().map(|s| s.as_bytes().to_vec()).collect())
}

#[test]
fn column_as_string() {
    let block = block_of("String", strings(&["id", "", "\u{1F600}"]));
    assert_eq!(
        block.column_as::<String>("c").unwrap(),
        vec!["id", "", "\u{1F600}"]
    );
}

#[test]
fn column_as_string_rejects_non_utf8() {
    let block = block_of("String", DecodedColumn::String(vec![vec![0xff, 0xfe]]));
    let err = block.column_as::<String>("c").unwrap_err();
    assert!(
        matches!(err, Error::InvalidUtf8Encoding(_)),
        "expected a UTF-8 error, got {err:?}"
    );
}

#[test]
fn column_as_raw_bytes() {
    let block = block_of("String", DecodedColumn::String(vec![vec![0xff, 0x00]]));
    assert_eq!(
        block.column_as::<Vec<u8>>("c").unwrap(),
        vec![vec![0xffu8, 0x00]]
    );
}

#[test]
fn column_as_u64() {
    let block = block_of("UInt64", DecodedColumn::UInt64(vec![0, 1, u64::MAX]));
    assert_eq!(block.column_as::<u64>("c").unwrap(), vec![0, 1, u64::MAX]);
}

#[test]
fn column_as_u8() {
    let block = block_of("UInt8", DecodedColumn::UInt8(vec![0, 1, 255]));
    assert_eq!(block.column_as::<u8>("c").unwrap(), vec![0u8, 1, 255]);
}

#[test]
fn column_as_i64() {
    let block = block_of("Int64", DecodedColumn::Int64(vec![i64::MIN, -1, 0]));
    assert_eq!(
        block.column_as::<i64>("c").unwrap(),
        vec![i64::MIN, -1, 0i64]
    );
}

#[test]
fn column_as_bool_treats_any_nonzero_as_true() {
    let block = block_of("Bool", DecodedColumn::UInt8(vec![0, 1, 7]));
    assert_eq!(
        block.column_as::<bool>("c").unwrap(),
        vec![false, true, true]
    );
}

#[test]
fn column_as_nullable_string() {
    let block = block_of(
        "Nullable(String)",
        DecodedColumn::Nullable {
            mask: vec![0, 1, 0],
            child: Box::new(strings(&["a", "", "b"])),
        },
    );
    assert_eq!(
        block.column_as::<Option<String>>("c").unwrap(),
        vec![Some("a".to_string()), None, Some("b".to_string())]
    );
}

/// Every scalar the decoder can produce must have a `column_as` route.
/// The Docker type matrix reads its columns this way, so a type that
/// decodes but cannot be read back is a hole the matrix cannot cover.
/// Split by group only to stay under the function-length lint.
#[test]
fn column_as_covers_every_numeric_scalar() {
    assert_eq!(
        block_of("UInt8", DecodedColumn::UInt8(vec![7]))
            .column_as::<u8>("c")
            .unwrap(),
        vec![7u8]
    );
    assert_eq!(
        block_of("UInt16", DecodedColumn::UInt16(vec![7]))
            .column_as::<u16>("c")
            .unwrap(),
        vec![7u16]
    );
    assert_eq!(
        block_of("UInt32", DecodedColumn::UInt32(vec![7]))
            .column_as::<u32>("c")
            .unwrap(),
        vec![7u32]
    );
    assert_eq!(
        block_of("UInt64", DecodedColumn::UInt64(vec![7]))
            .column_as::<u64>("c")
            .unwrap(),
        vec![7u64]
    );
    assert_eq!(
        block_of("UInt128", DecodedColumn::UInt128(vec![7]))
            .column_as::<u128>("c")
            .unwrap(),
        vec![7u128]
    );
    assert_eq!(
        block_of("Int8", DecodedColumn::Int8(vec![-7]))
            .column_as::<i8>("c")
            .unwrap(),
        vec![-7i8]
    );
    assert_eq!(
        block_of("Int16", DecodedColumn::Int16(vec![-7]))
            .column_as::<i16>("c")
            .unwrap(),
        vec![-7i16]
    );
    assert_eq!(
        block_of("Int32", DecodedColumn::Int32(vec![-7]))
            .column_as::<i32>("c")
            .unwrap(),
        vec![-7i32]
    );
    assert_eq!(
        block_of("Int64", DecodedColumn::Int64(vec![-7]))
            .column_as::<i64>("c")
            .unwrap(),
        vec![-7i64]
    );
    assert_eq!(
        block_of("Int128", DecodedColumn::Int128(vec![-7]))
            .column_as::<i128>("c")
            .unwrap(),
        vec![-7i128]
    );
    assert_eq!(
        block_of("Float32", DecodedColumn::Float32(vec![1.5f32.to_bits()]))
            .column_as::<SingleBits>("c")
            .unwrap(),
        vec![SingleBits(1.5f32.to_bits())]
    );
    assert_eq!(
        block_of("Float64", DecodedColumn::Float64(vec![1.5f64.to_bits()]))
            .column_as::<DoubleBits>("c")
            .unwrap(),
        vec![DoubleBits(1.5f64.to_bits())]
    );
}

/// Types whose Rust shape is their backing, not a type of their own.
#[test]
fn column_as_covers_types_carried_on_another_backing() {
    assert_eq!(
        block_of("Date", DecodedColumn::Date(vec![19_000]))
            .column_as::<u16>("c")
            .unwrap(),
        vec![19_000u16]
    );
    assert_eq!(
        block_of("Date32", DecodedColumn::Date32(vec![-1]))
            .column_as::<i32>("c")
            .unwrap(),
        vec![-1i32]
    );
    assert_eq!(
        block_of("DateTime", DecodedColumn::DateTime(vec![1_700_000_000]))
            .column_as::<u32>("c")
            .unwrap(),
        vec![1_700_000_000u32]
    );
    assert_eq!(
        block_of("IPv4", DecodedColumn::Ipv4(vec![0x0100_007f]))
            .column_as::<u32>("c")
            .unwrap(),
        vec![0x0100_007fu32]
    );
    assert_eq!(
        block_of(
            "DateTime64(3)",
            DecodedColumn::DateTime64 {
                precision: 3,
                timezone: None,
                values: vec![1_700_000_000_000],
            }
        )
        .column_as::<i64>("c")
        .unwrap(),
        vec![1_700_000_000_000i64]
    );
    assert_eq!(
        block_of(
            "Decimal(9, 2)",
            DecodedColumn::Decimal32 {
                precision: 9,
                scale: 2,
                values: vec![12_345],
            }
        )
        .column_as::<i32>("c")
        .unwrap(),
        vec![12_345i32]
    );
    assert_eq!(
        block_of(
            "Decimal(18, 2)",
            DecodedColumn::Decimal64 {
                precision: 18,
                scale: 2,
                values: vec![12_345],
            }
        )
        .column_as::<i64>("c")
        .unwrap(),
        vec![12_345i64]
    );
    assert_eq!(
        block_of(
            "Decimal(38, 2)",
            DecodedColumn::Decimal128 {
                precision: 38,
                scale: 2,
                values: vec![12_345],
            }
        )
        .column_as::<i128>("c")
        .unwrap(),
        vec![12_345i128]
    );
}

/// 256-bit and 16-byte columns come back as their raw wire blocks; the
/// last two cases pin `Bool` and the `Nullable` blanket.
#[test]
fn column_as_covers_wide_bool_and_nullable_columns() {
    assert_eq!(
        block_of(
            "Decimal(76, 2)",
            DecodedColumn::Decimal256 {
                precision: 76,
                scale: 2,
                values: vec![[9u8; 32]],
            }
        )
        .column_as::<[u8; 32]>("c")
        .unwrap(),
        vec![[9u8; 32]]
    );
    assert_eq!(
        block_of("Int256", DecodedColumn::Int256(vec![[1u8; 32]]))
            .column_as::<[u8; 32]>("c")
            .unwrap(),
        vec![[1u8; 32]]
    );
    assert_eq!(
        block_of("UInt256", DecodedColumn::UInt256(vec![[2u8; 32]]))
            .column_as::<[u8; 32]>("c")
            .unwrap(),
        vec![[2u8; 32]]
    );
    assert_eq!(
        block_of("UUID", DecodedColumn::Uuid(vec![[3u8; 16]]))
            .column_as::<[u8; 16]>("c")
            .unwrap(),
        vec![[3u8; 16]]
    );
    assert_eq!(
        block_of("IPv6", DecodedColumn::Ipv6(vec![[4u8; 16]]))
            .column_as::<[u8; 16]>("c")
            .unwrap(),
        vec![[4u8; 16]]
    );

    // Bool shares the UInt8 backing; any non-zero byte is true.
    assert_eq!(
        block_of("Bool", DecodedColumn::UInt8(vec![0, 1, 2]))
            .column_as::<bool>("c")
            .unwrap(),
        vec![false, true, true]
    );

    // Nullable routes through whatever route the child has.
    assert_eq!(
        block_of(
            "Nullable(UInt64)",
            DecodedColumn::Nullable {
                mask: vec![0, 1],
                child: Box::new(DecodedColumn::UInt64(vec![9, 0])),
            }
        )
        .column_as::<Option<u64>>("c")
        .unwrap(),
        vec![Some(9u64), None]
    );
}

#[test]
fn column_as_names_the_column_and_both_types_on_mismatch() {
    let block = block_of("UInt64", DecodedColumn::UInt64(vec![1]));
    let err = block.column_as::<String>("c").unwrap_err();
    let msg = err.message();
    assert!(msg.contains("'c'"), "message must name the column: {msg}");
    assert!(
        msg.contains("UInt64"),
        "message must name the wire type: {msg}"
    );
    assert!(
        msg.contains("String"),
        "message must name the read type: {msg}"
    );
}

#[test]
fn column_as_rejects_an_undeclared_column() {
    let block = block_of("UInt64", DecodedColumn::UInt64(vec![1]));
    let err = block.column_as::<u64>("missing").unwrap_err();
    assert!(err.message().contains("'missing'"), "{err:?}");
}

#[test]
fn header_block_declares_columns_but_yields_no_values() {
    let block = DecodedBlock {
        columns: Vec::new(),
        schema: vec![("c".to_string(), "UInt64".to_string())],
        num_rows: 0,
    };
    assert!(block.column("c").is_none());
    assert!(block.column_as::<u64>("c").unwrap().is_empty());
}

/// The server ends every result set with a block that declares no
/// columns, so a `column_as` sweep over the whole set must not read it
/// as a schema mismatch.
#[test]
fn trailing_empty_block_yields_no_values() {
    let block = DecodedBlock {
        columns: Vec::new(),
        schema: Vec::new(),
        num_rows: 0,
    };
    assert!(block.column_as::<u64>("c").unwrap().is_empty());
}

#[test]
fn fixed_string_preserves_nul_and_padding() {
    // Embedded NULs and trailing zero-padding are data, never terminators.
    let raw = [b'a', 0, b'b', 0, b'a', b'b', 0, 0];
    let col = decode_one_typed("FixedString(4)", 2, &raw);
    match col {
        DecodedColumn::FixedString { width, bytes } => {
            assert_eq!(width, 4);
            assert_eq!(bytes, raw);
        }
        other => panic!("expected FixedString, got {other:?}"),
    }
}

#[test]
fn lowcardinality_header_block_consumes_no_column_bytes() {
    // A zero-row block carries no payload for the column, the
    // LowCardinality version and flags words included.
    let mut body: Vec<u8> = Vec::new();
    body.put_string(b"lc");
    body.put_string(b"LowCardinality(String)");
    body.push(0); // custom-serialization flag
    let len = body.len();
    let mut cursor = Cursor::new(body);
    let block = decode_block(&mut cursor, 1, 0, REV).unwrap();
    assert_eq!(cursor.position(), len as u64, "read past the column header");
    assert_eq!(block.columns[0].row_count(), 0);
}

#[test]
fn decode_block_rejects_an_implausible_row_count() {
    let mut cursor = Cursor::new(Vec::new());
    let err = decode_block(&mut cursor, 1, MAX_BLOCK_ROWS + 1, REV)
        .unwrap_err();
    assert!(err.message().contains("rows, above the"), "{err:?}");
    assert_eq!(cursor.position(), 0, "rejected before reading a byte");
}

#[test]
fn decode_block_rejects_an_implausible_column_count() {
    let mut cursor = Cursor::new(Vec::new());
    let err = decode_block(&mut cursor, MAX_BLOCK_COLUMNS + 1, 1, REV)
        .unwrap_err();
    assert!(err.message().contains("columns, above the"), "{err:?}");
    assert_eq!(cursor.position(), 0, "rejected before reading a byte");
}

#[test]
fn roundtrip_nullable_lowcardinality() {
    // LC(Nullable(String)) over ["a", NULL, "a"]: the dictionary reserves
    // slot 0 for NULL, so the two "a" rows share slot 1.
    let payload = lc_string_payload(0, &["", "a"], &[1, 0, 1]);
    match decode_one_typed("LowCardinality(Nullable(String))", 3, &payload) {
        DecodedColumn::LowCardinality {
            dict,
            indices,
            is_nullable_inner,
        } => {
            assert!(is_nullable_inner);
            match indices.as_ref() {
                DecodedColumn::UInt8(v) => assert_eq!(v, &vec![1u8, 0, 1]),
                other => panic!("expected UInt8 indices, got {other:?}"),
            }
            match dict.as_ref() {
                DecodedColumn::String(d) => assert_eq!(d.len(), 2),
                other => panic!("expected String dict, got {other:?}"),
            }
        }
        other => panic!("expected LowCardinality, got {other:?}"),
    }
}

#[test]
fn roundtrip_map_nullable_value() {
    // One row: {"k": NULL}. The value sub-column is a full Nullable column,
    // so it carries a mask byte and a placeholder value.
    let mut payload = 1u64.to_le_bytes().to_vec();
    payload.extend_from_slice(&[1, b'k']); // keys
    payload.extend_from_slice(&[1, 0]); // null mask, then the placeholder
    match decode_one_typed("Map(String, Nullable(UInt8))", 1, &payload) {
        DecodedColumn::Mapping {
            offsets, values, ..
        } => {
            assert_eq!(offsets, vec![1u64]);
            match values.as_ref() {
                DecodedColumn::Nullable { mask, .. } => assert_eq!(mask, &vec![1u8]),
                other => panic!("expected Nullable values, got {other:?}"),
            }
        }
        other => panic!("expected Map, got {other:?}"),
    }
}

#[test]
fn roundtrip_array_of_tuple() {
    // One row of two (UInt8, UInt16) pairs: the offsets, then the tuple's
    // two field sub-columns flat over both elements.
    let mut payload = 2u64.to_le_bytes().to_vec();
    payload.extend_from_slice(&[1, 2]); // the UInt8 field
    payload.extend_from_slice(&[3, 0, 4, 0]); // the UInt16 field
    match decode_one_typed("Array(Tuple(UInt8, UInt16))", 1, &payload) {
        DecodedColumn::Array { offsets, child } => {
            assert_eq!(offsets, vec![2u64]);
            match child.as_ref() {
                DecodedColumn::Tuple(fields) => {
                    assert_eq!(fields.len(), 2);
                    match (&fields[0], &fields[1]) {
                        (DecodedColumn::UInt8(a), DecodedColumn::UInt16(b)) => {
                            assert_eq!(a, &vec![1u8, 2]);
                            assert_eq!(b, &vec![3u16, 4]);
                        }
                        other => panic!("expected (UInt8, UInt16), got {other:?}"),
                    }
                }
                other => panic!("expected Tuple child, got {other:?}"),
            }
        }
        other => panic!("expected Array, got {other:?}"),
    }
}

#[test]
fn variant_and_dynamic_read_as_json_documents() {
    // Variant(UInt8, String) over [7, "q"]: mode word, discriminators, then
    // each arm's rows.
    let mut payload = 0u64.to_le_bytes().to_vec();
    payload.extend_from_slice(&[0, 1]);
    payload.push(7);
    payload.extend_from_slice(&[1, b'q']);
    match decode_one_typed("Variant(UInt8, String)", 2, &payload) {
        DecodedColumn::Json(docs) => {
            assert_eq!(docs, vec![b"7".to_vec(), br#""q""#.to_vec()]);
        }
        other => panic!("expected Json, got {other:?}"),
    }
}

/// Upper bounds on what the generator may draw. A declared count is
/// server-controlled, so the generator stays inside what a real block can
/// carry.
const PROP_MAX_ROWS: u64 = 1_024;
const PROP_MAX_COLUMNS: u64 = 64;
const PROP_MAX_WIRE_BYTES: u64 = 64 * 1_024;

/// A reproducible source of numbers.
struct Draw(u64);

impl Draw {
    fn next(&mut self) -> u64 {
        self.0 ^= self.0 << 13;
        self.0 ^= self.0 >> 7;
        self.0 ^= self.0 << 17;
        self.0
    }

    fn within(&mut self, lo: u64, hi: u64) -> u64 {
        lo + self.next() % (hi - lo + 1)
    }

    fn octet(&mut self) -> u8 {
        self.next().to_le_bytes()[3]
    }
}

/// A three-column block body covering a fixed width, a length-prefixed type
/// and a composite, so a truncation can land inside any of them.
fn valid_block_body() -> Vec<u8> {
    let mut body: Vec<u8> = Vec::new();
    body.put_string(b"n");
    body.put_string(b"UInt64");
    body.push(0);
    body.extend_from_slice(&7u64.to_le_bytes());
    body.put_string(b"s");
    body.put_string(b"String");
    body.push(0);
    body.put_string(b"hello");
    body.put_string(b"a");
    body.put_string(b"Array(UInt8)");
    body.push(0);
    body.extend_from_slice(&2u64.to_le_bytes());
    body.extend_from_slice(&[1, 2]);
    body
}

/// Assert what a successful decode must satisfy: one column per schema
/// entry, and every column exactly `rows` long. A decoder that fabricated
/// rows the wire never backed would fail the second. `Unsupported` is
/// exempt because it deliberately reports zero rows.
fn assert_block_is_consistent(block: &DecodedBlock, rows: u64) {
    assert_eq!(block.schema.len(), block.columns.len());
    for column in &block.columns {
        if matches!(column, DecodedColumn::Unsupported(_)) {
            continue;
        }
        let got = u64::try_from(column.row_count()).expect("row count fits u64");
        assert_eq!(got, rows);
    }
}

/// Truncated and byte-flipped block bodies, at row and column counts drawn
/// from the generator. Every input must either decode or error, and no
/// input may panic.
#[test]
fn decode_block_survives_truncation_and_garbage() {
    let body = valid_block_body();
    let mut draw = Draw(0x9e37_79b9_7f4a_7c15);
    let mut check = |cut: usize, noise: u8, at: usize, rows: u64, columns: u64| {
        let mut wire = body[..cut].to_vec();
        // Flip one byte inside the surviving prefix so the case covers
        // garbage as well as a clean truncation.
        if at < wire.len() {
            wire[at] = noise;
        }
        if let Ok(block) = decode_block(&mut Cursor::new(wire), columns, rows, REV) {
            assert_block_is_consistent(&block, rows);
        }
    };
    // The whole body, and every truncation of it.
    for cut in 0..=body.len() {
        for columns in 1..=3 {
            check(cut, 0, body.len(), 1, columns);
        }
    }
    for _ in 0..2_000 {
        let cut = draw.within(0, body.len() as u64) as usize;
        let at = draw.within(0, body.len() as u64 - 1) as usize;
        let noise = draw.octet();
        let rows = draw.within(1, PROP_MAX_ROWS);
        let columns = draw.within(1, PROP_MAX_COLUMNS);
        check(cut, noise, at, rows, columns);
    }
    let whole = decode_block(&mut Cursor::new(valid_block_body()), 3, 1, REV).unwrap();
    assert_block_is_consistent(&whole, 1);
}

/// The same guarantee for a body that was never valid to begin with.
#[test]
fn decode_block_survives_arbitrary_bytes() {
    let mut draw = Draw(0x2545_f491_4f6c_dd1d);
    for round in 0..300 {
        let most = if round % 10 == 0 { PROP_MAX_WIRE_BYTES } else { 256 };
        let len = draw.within(0, most);
        let wire: Vec<u8> = (0..len).map(|_| draw.octet()).collect();
        let rows = draw.within(1, PROP_MAX_ROWS);
        let columns = draw.within(1, PROP_MAX_COLUMNS);
        if let Ok(block) = decode_block(&mut Cursor::new(wire), columns, rows, REV) {
            assert_block_is_consistent(&block, rows);
        }
    }
}
