//! The laws of the Native codec, on concrete values.

use bytes::{Bytes, BytesMut};

use clickhouse_dfe::error::Error;
use clickhouse_dfe::native::buffers::{ClickHouseBytesRead, ClickHouseBytesWrite};
use clickhouse_dfe::native::columns::ColumnType;
use clickhouse_dfe::native::decode::{decode_block, read_block_info};
use clickhouse_dfe::native::decoded::{DecodedBlock, DecodedColumn};
use clickhouse_dfe::native::encode::{encode_columns, rb_advance, ColumnSchema};
use clickhouse_dfe::native::io::{
    le_number, pattern_of, push_le, push_string, signed128, signed16, signed32, signed64, signed8,
    string_from, u64_from, utf8_string_from, var_uint_from, var_uint_or_eof, with_cap, Wire,
};
use clickhouse_dfe::native::json::{rowbinary_to_json, rowbinary_to_json_inner, Gap};
use clickhouse_dfe::native::reader::read_column;
use clickhouse_dfe::native::texts::{CellKey, CellTexts};

const REV: u64 = 54459;
const BUDGET: usize = isize::MAX as usize;

fn schema(columns: &[(&str, &str)]) -> Vec<ColumnSchema> {
    let headers: Vec<(String, String)> =
        columns.iter().map(|(n, t)| (n.to_string(), t.to_string())).collect();
    ColumnSchema::from_headers(&headers).expect("the headers parse")
}

fn decode(
    data: &[u8],
    num_columns: u64,
    num_rows: u64,
) -> Result<(DecodedBlock, usize), Error> {
    let texts = CellTexts::new();
    let w = Wire { data, texts: &texts, budget: BUDGET };
    decode_block(&w, 0, num_columns, num_rows, REV)
}

/// Two rows over four columns, and their block.
fn sample() -> (Vec<Vec<u8>>, Vec<ColumnSchema>, Vec<u8>) {
    let columns = schema(&[
        ("n", "UInt16"),
        ("s", "LowCardinality(Nullable(String))"),
        ("a", "Array(Nullable(UInt8))"),
        ("m", "Map(String, Tuple(UInt8, Int32))"),
    ]);
    let mut first = vec![7, 0];
    first.extend_from_slice(&[0, 2, b'h', b'i']);
    first.extend_from_slice(&[2, 0, 5, 1]);
    first.extend_from_slice(&[1, 1, b'k', 9, 0xff, 0xff, 0xff, 0xff]);
    let mut second = vec![0, 1];
    second.extend_from_slice(&[1]);
    second.extend_from_slice(&[0]);
    second.extend_from_slice(&[0]);
    let rows = vec![first, second];
    let out = encode_columns(&rows, &columns, REV).expect("the rows encode");
    (rows, columns, out)
}

#[test]
fn a_block_decodes_to_the_values_that_were_encoded() {
    let (_, _, out) = sample();
    let (block, end) = decode(&out, 4, 2).expect("the block decodes");
    assert_eq!(end, out.len());
    assert_eq!(block.num_rows, 2);
    let names: Vec<&str> = block.schema.iter().map(|(n, _)| n.as_str()).collect();
    assert_eq!(names, vec!["n", "s", "a", "m"]);
    match &block.columns[0] {
        DecodedColumn::UInt16(v) => assert_eq!(v, &vec![7, 256]),
        other => panic!("got {other:?}"),
    }
    match &block.columns[1] {
        DecodedColumn::LowCardinality { dict, indices, is_nullable_inner } => {
            assert!(is_nullable_inner);
            match (dict.as_ref(), indices.as_ref()) {
                (DecodedColumn::String(d), DecodedColumn::UInt8(i)) => {
                    assert_eq!(d, &vec![b"".to_vec(), b"hi".to_vec()]);
                    assert_eq!(i, &vec![1, 0]);
                }
                other => panic!("got {other:?}"),
            }
        }
        other => panic!("got {other:?}"),
    }
    match &block.columns[2] {
        DecodedColumn::Array { offsets, child } => {
            assert_eq!(offsets, &vec![2, 2]);
            match child.as_ref() {
                DecodedColumn::Nullable { mask, child } => {
                    assert_eq!(mask, &vec![0, 1]);
                    assert!(matches!(child.as_ref(), DecodedColumn::UInt8(v) if v == &vec![5, 0]));
                }
                other => panic!("got {other:?}"),
            }
        }
        other => panic!("got {other:?}"),
    }
    match &block.columns[3] {
        DecodedColumn::Mapping { offsets, keys, values } => {
            assert_eq!(offsets, &vec![1, 1]);
            assert!(matches!(keys.as_ref(), DecodedColumn::String(k) if k == &vec![b"k".to_vec()]));
            match values.as_ref() {
                DecodedColumn::Tuple(fields) => {
                    assert!(matches!(&fields[0], DecodedColumn::UInt8(v) if v == &vec![9]));
                    assert!(matches!(&fields[1], DecodedColumn::Int32(v) if v == &vec![-1]));
                }
                other => panic!("got {other:?}"),
            }
        }
        other => panic!("got {other:?}"),
    }
}

#[test]
fn a_column_reads_back_as_the_cells_that_were_encoded() {
    for (type_text, cells) in [
        ("UInt32", vec![vec![1, 0, 0, 0], vec![0, 0, 0, 9]]),
        ("Nullable(String)", vec![vec![0, 1, b'a'], vec![1], vec![0, 0]]),
        ("LowCardinality(String)", vec![vec![1, b'a'], vec![1, b'b'], vec![1, b'a']]),
        ("Array(Array(UInt8))", vec![vec![2, 1, 7, 2, 8, 9], vec![0]]),
        ("Map(String, UInt8)", vec![vec![1, 1, b'k', 3], vec![0]]),
        ("Tuple(UInt8, String)", vec![vec![4, 1, b'x'], vec![5, 0]]),
    ] {
        let columns = schema(&[("c", type_text)]);
        let out = encode_columns(&cells, &columns, 0).expect("the cells encode");
        let header = 2 + 1 + type_text.len();
        let texts = CellTexts::new();
        let w = Wire { data: &out, texts: &texts, budget: BUDGET };
        let col_type = ColumnType::parse(type_text).expect("the type parses");
        let (got, end) =
            read_column(&w, header, &col_type, cells.len() as u64).expect("the column reads");
        assert_eq!(got, cells, "{type_text}");
        assert_eq!(end, out.len(), "{type_text}");
    }
}

#[test]
fn a_block_cut_short_asks_for_more_and_nothing_behind_it_matters() {
    let (_, _, out) = sample();
    for cut in 0..out.len() {
        assert!(
            matches!(decode(&out[..cut], 4, 2), Err(Error::NotEnoughData)),
            "{cut} bytes"
        );
    }
    let mut more = out.clone();
    more.extend_from_slice(&[0xff; 9]);
    let (block, end) = decode(&more, 4, 2).expect("the block decodes");
    assert_eq!(end, out.len());
    assert_eq!(block.columns.len(), 4);
    assert_eq!(block.schema.len(), 4);
    for column in &block.columns {
        assert_eq!(column.row_count(), 2);
    }
}

#[test]
fn block_info_is_read_to_its_end() {
    let info = [1, 0, 2, 0xff, 0xff, 0xff, 0xff, 0];
    assert_eq!(read_block_info(&info, 0).unwrap(), 8);
    for cut in 0..info.len() {
        assert!(matches!(read_block_info(&info[..cut], 0), Err(Error::NotEnoughData)));
    }
    let wrong = [2, 0, 2, 0, 0, 0, 0, 0];
    let err = read_block_info(&wrong, 0).unwrap_err();
    assert_eq!(
        err.message(),
        "bad response: native: block info field id 2 (expected 1 = is_overflows)"
    );
}

#[test]
fn numbers_survive_their_bytes() {
    for n in [0u128, 1, 255, 256, 0xdead_beef, u128::from(u64::MAX)] {
        let mut out = Vec::new();
        push_le(&mut out, n, 8);
        assert_eq!(out, (n as u64).to_le_bytes());
        assert_eq!(le_number(&out, 0, 8), n);
        assert_eq!(u64_from(&out, 0).unwrap(), (n as u64, 8));
    }
    assert_eq!(signed8(pattern_of(-128, 1) as u8), -128);
    assert_eq!(signed16(pattern_of(-2, 2) as u16), -2);
    assert_eq!(signed32(pattern_of(-3, 4) as u32), -3);
    assert_eq!(signed64(pattern_of(i128::from(i64::MIN), 8) as u64), i64::MIN);
    assert_eq!(signed128(pattern_of(i128::MIN, 16)), i128::MIN);
}

#[test]
fn shared_buffers_are_left_where_reading_stops() {
    let mut buf = BytesMut::new();
    buf.put_string(b"ab");
    buf.put_var_uint(300);
    assert_eq!(&buf[..], &[2, b'a', b'b', 0xac, 0x02]);
    let mut reader = buf.freeze();
    assert_eq!(&reader.try_get_string().unwrap()[..], b"ab");
    assert_eq!(&reader[..], &[0xac, 0x02]);
    assert_eq!(reader.try_get_var_uint().unwrap(), 300);
    assert!(reader.is_empty());

    // A string that is cut short takes its length alone.
    let mut short = Bytes::from_static(&[5, b'a']);
    assert!(matches!(short.try_get_string(), Err(Error::NotEnoughData)));
    assert_eq!(&short[..], b"a");
    // A value that never ends takes ten bytes.
    let mut endless = Bytes::from(vec![0x80u8; 12]);
    assert!(matches!(endless.try_get_var_uint(), Err(Error::BadResponse(_))));
    assert_eq!(endless.len(), 2);
    // A value that is cut short takes everything.
    let mut cut = Bytes::from_static(&[0x80, 0x80]);
    assert!(matches!(cut.try_get_var_uint(), Err(Error::NotEnoughData)));
    assert!(cut.is_empty());

    let mut plain: Vec<u8> = vec![9];
    plain.put_var_uint(128);
    plain.put_string(b"x");
    assert_eq!(plain, vec![9, 0x80, 0x01, 1, b'x']);
}

#[test]
fn text_on_the_wire_must_be_utf8() {
    let mut wire = Vec::new();
    push_string(&mut wire, "gr\u{fc}n".as_bytes());
    assert_eq!(utf8_string_from(&wire, 0).unwrap(), ("gr\u{fc}n".to_string(), 6));
    let mut bad = Vec::new();
    push_string(&mut bad, &[b'a', 0xff]);
    let reason = String::from_utf8(vec![b'a', 0xff]).unwrap_err().to_string();
    assert_eq!(
        utf8_string_from(&bad, 0).unwrap_err().message(),
        format!("bad response: native protocol: invalid utf8: {reason}")
    );
    assert!(matches!(string_from(&bad[..2], 0), Err(Error::NotEnoughData)));
}

#[test]
fn a_stream_may_end_between_blocks_only() {
    assert_eq!(var_uint_or_eof(&[], 0).unwrap(), (None, 0));
    assert_eq!(var_uint_or_eof(&[0xac, 0x02], 0).unwrap(), (Some(300), 2));
    assert!(matches!(var_uint_or_eof(&[0xac], 0), Err(Error::NotEnoughData)));
    assert!(matches!(var_uint_from(&[], 0), Err(Error::NotEnoughData)));
}

#[test]
fn a_buffer_beyond_the_budget_is_refused() {
    assert!(with_cap::<u64>(4, 32).is_ok());
    let err = with_cap::<u64>(5, 32).unwrap_err();
    assert_eq!(
        err.message(),
        "bad response: native protocol: refused a 40-byte column buffer the allocator could not back"
    );
}

#[test]
fn a_type_that_cannot_be_inserted_is_named_in_full() {
    let columns = vec![ColumnSchema {
        name: "c".to_string(),
        type_text: "Variant(DateTime64(3, 'UTC'))".to_string(),
        col_type: ColumnType::Variant(vec![ColumnType::DateTime64 {
            precision: 3,
            timezone: Some("U\"TC\n".to_string()),
        }]),
    }];
    let err = encode_columns(&[vec![0u8; 8]], &columns, 0).unwrap_err();
    let zone = format!("{:?}", "U\"TC\n");
    let msg = err.message();
    assert!(msg.contains(&zone), "{msg}");
    assert!(msg.ends_with("is not supported for INSERT"), "{msg}");
}

#[test]
fn a_float_is_rendered_with_the_text_that_was_supplied() {
    let bits = 0.1f64.to_bits();
    let mut texts = CellTexts::new();
    let cell = 0.1f64.to_le_bytes();
    assert!(matches!(
        rowbinary_to_json(&cell, &ColumnType::Float64, &texts),
        Err(Error::TextNeeded(CellKey::Double(b))) if b == bits
    ));
    texts.supply(CellKey::Double(bits), b"0.1".to_vec());
    assert_eq!(rowbinary_to_json(&cell, &ColumnType::Float64, &texts).unwrap(), b"0.1");
}

#[test]
fn names_of_unbalanced_types_do_not_nest_past_the_cap() {
    let mut name = "UInt8".to_string();
    for _ in 0..40 {
        name = format!("Tuple(Enum8(a)), {name})");
    }
    assert!(ColumnType::parse(&name).is_none());
}

#[test]
fn lists_whose_offsets_step_back_are_refused() {
    let mut body: Vec<u8> = Vec::new();
    body.put_string(b"a");
    body.put_string(b"Array(UInt8)");
    body.push(0);
    body.extend_from_slice(&2u64.to_le_bytes());
    body.extend_from_slice(&1u64.to_le_bytes());
    let err = decode(&body, 1, 2).unwrap_err();
    assert_eq!(
        err.message(),
        "bad response: native: Array column offsets are not monotonically increasing"
    );
}

/// Row `r` of a column, written as `RowBinary` again.
fn rewritten(column: &DecodedColumn, r: usize) -> Vec<u8> {
    match column {
        DecodedColumn::UInt8(v) => vec![v[r]],
        DecodedColumn::UInt16(v) => v[r].to_le_bytes().to_vec(),
        DecodedColumn::Int32(v) => v[r].to_le_bytes().to_vec(),
        DecodedColumn::String(v) => {
            let mut out = Vec::new();
            push_string(&mut out, &v[r]);
            out
        }
        DecodedColumn::Nullable { mask, child } => {
            let mut out = vec![mask[r]];
            if mask[r] == 0 {
                out.extend(rewritten(child, r));
            }
            out
        }
        DecodedColumn::Array { offsets, child } => {
            let from = if r == 0 { 0 } else { offsets[r - 1] as usize };
            let to = offsets[r] as usize;
            let mut out = vec![(to - from) as u8];
            for i in from..to {
                out.extend(rewritten(child, i));
            }
            out
        }
        DecodedColumn::Mapping { offsets, keys, values } => {
            let from = if r == 0 { 0 } else { offsets[r - 1] as usize };
            let to = offsets[r] as usize;
            let mut out = vec![(to - from) as u8];
            for i in from..to {
                out.extend(rewritten(keys, i));
                out.extend(rewritten(values, i));
            }
            out
        }
        DecodedColumn::Tuple(fields) => fields.iter().flat_map(|f| rewritten(f, r)).collect(),
        DecodedColumn::LowCardinality { dict, indices, is_nullable_inner } => {
            let i = match indices.as_ref() {
                DecodedColumn::UInt8(v) => v[r] as usize,
                other => panic!("got {other:?}"),
            };
            match (*is_nullable_inner, i) {
                (false, _) => rewritten(dict, i),
                (true, 0) => vec![1],
                (true, _) => {
                    let mut out = vec![0];
                    out.extend(rewritten(dict, i));
                    out
                }
            }
        }
        other => panic!("got {other:?}"),
    }
}

#[test]
fn every_row_is_found_again_in_the_decoded_columns() {
    let (rows, _, out) = sample();
    let (block, _) = decode(&out, 4, 2).expect("the block decodes");
    for (r, row) in rows.iter().enumerate() {
        let again: Vec<u8> = block.columns.iter().flat_map(|c| rewritten(c, r)).collect();
        assert_eq!(&again, row);
    }
}

#[test]
fn a_present_default_is_not_null() {
    let columns = schema(&[("s", "LowCardinality(Nullable(String))")]);
    let rows = vec![vec![0, 0], vec![1], vec![0, 1, b'x'], vec![0, 0]];
    let out = encode_columns(&rows, &columns, REV).expect("the rows encode");
    let (block, _) = decode(&out, 1, 4).expect("the block decodes");
    match &block.columns[0] {
        DecodedColumn::LowCardinality { dict, indices, .. } => {
            match (dict.as_ref(), indices.as_ref()) {
                (DecodedColumn::String(d), DecodedColumn::UInt8(i)) => {
                    assert_eq!(d, &vec![b"".to_vec(), b"".to_vec(), b"x".to_vec()]);
                    assert_eq!(i, &vec![1, 0, 2, 1]);
                }
                other => panic!("got {other:?}"),
            }
        }
        other => panic!("got {other:?}"),
    }
    for (r, row) in rows.iter().enumerate() {
        assert_eq!(&rewritten(&block.columns[0], r), row);
    }
}

#[test]
fn a_tuple_has_the_rows_of_a_field_that_tells_them() {
    let untyped = || DecodedColumn::Unsupported("Point".to_string());
    let two = || DecodedColumn::UInt8(vec![1, 2]);
    assert_eq!(DecodedColumn::Tuple(vec![untyped(), two()]).row_count(), 2);
    let inner = DecodedColumn::Tuple(vec![untyped()]);
    assert_eq!(DecodedColumn::Tuple(vec![inner, two()]).row_count(), 2);
    let empty = DecodedColumn::UInt8(Vec::new());
    assert_eq!(DecodedColumn::Tuple(vec![empty, two()]).row_count(), 0);
    assert_eq!(DecodedColumn::Tuple(vec![untyped()]).row_count(), 0);
}

/// A block of one column with these bytes behind its header.
fn one_column(type_text: &str, data: &[u8]) -> Vec<u8> {
    let mut out = Vec::new();
    push_string(&mut out, b"c");
    push_string(&mut out, type_text.as_bytes());
    out.push(0);
    out.extend_from_slice(data);
    out
}

#[test]
fn every_typed_column_has_the_rows_of_its_block() {
    let points = [0u8; 32];
    let mut mixed = points.to_vec();
    mixed.extend_from_slice(&[7, 8]);
    let (block, end) = decode(&one_column("Tuple(Point, UInt8)", &mixed), 1, 2).unwrap();
    assert_eq!(end, one_column("Tuple(Point, UInt8)", &mixed).len());
    assert_eq!(block.columns[0].row_count(), 2);
    let (block, _) = decode(&one_column("Tuple(Point)", &points), 1, 2).unwrap();
    assert!(matches!(block.columns[0], DecodedColumn::Unsupported(_)));
    match decode(&one_column("FixedString(0)", &[]), 1, 2) {
        Err(Error::BadResponse(m)) => assert_eq!(m, "native: FixedString width must be positive"),
        other => panic!("got {other:?}"),
    }
}

#[test]
fn a_header_block_has_columns_but_no_values() {
    let (block, _) = decode(&one_column("UInt64", &[]), 1, 0).unwrap();
    assert_eq!(block.columns.len(), 1);
    assert!(block.column("c").is_none());
    let empty: Vec<u64> = block.column_as("c").unwrap();
    assert!(empty.is_empty());
    let (block, _) = decode(&one_column("UInt8", &[5]), 1, 1).unwrap();
    assert!(matches!(block.column("c"), Some(DecodedColumn::UInt8(v)) if v == &vec![5]));
    assert!(block.column("d").is_none());
}

#[test]
fn headers_of_types_that_cannot_be_encoded_are_refused() {
    for type_text in [
        "Variant(UInt8, String)",
        "Dynamic",
        "Point",
        "SimpleAggregateFunction(sum, UInt64)",
        "Array(Tuple(UInt8, Point))",
        "Map(String, Dynamic)",
    ] {
        match ColumnSchema::from_headers(&[("v".to_string(), type_text.to_string())]) {
            Err(Error::BadResponse(m)) => assert_eq!(
                m,
                format!("native INSERT: unsupported column type '{type_text}' for column 'v'")
            ),
            other => panic!("{type_text}: {other:?}"),
        }
    }
    for type_text in ["JSON", "LowCardinality(Nullable(String))", "Map(String, Tuple(UInt8, Date))"] {
        assert_eq!(schema(&[("v", type_text)]).len(), 1);
    }
}

/// The rendering of one cell without floats.
fn rendered(cell: &[u8], type_text: &str) -> String {
    let t = ColumnType::parse(type_text).expect("the type parses");
    let json = rowbinary_to_json(cell, &t, &CellTexts::new()).expect("no text is needed");
    String::from_utf8(json).expect("JSON is UTF-8")
}

#[test]
fn keys_of_maps_are_json_strings() {
    assert_eq!(rendered(&[1, 1, 2], "Map(UInt8, UInt8)"), "{\"1\":2}");
    assert_eq!(rendered(&[1, 1, b'k', 2], "Map(String, UInt8)"), "{\"k\":2}");
    assert_eq!(rendered(&[1, 1, 2], "Map(Nullable(UInt8), UInt8)"), "{\"null\":2}");
    assert_eq!(
        rendered(&[1, 1, b'a', 3, 2], "Map(Tuple(String, UInt8), UInt8)"),
        "{\"[\\\"a\\\",3]\":2}"
    );
}

#[test]
fn quoted_bytes_are_utf8_whatever_they_were() {
    assert_eq!(rendered(&[1, 0xff], "String"), "\"\\u00ff\"");
    assert_eq!(rendered(&[4, b'a', 0xc3, 0xa9, 0xc3], "String"), "\"a\u{e9}\\u00c3\"");
    // Overlong, surrogate and out of range.
    assert_eq!(rendered(&[2, 0xc0, 0x80], "String"), "\"\\u00c0\\u0080\"");
    assert_eq!(rendered(&[3, 0xed, 0xa0, 0x80], "String"), "\"\\u00ed\\u00a0\\u0080\"");
    assert_eq!(
        rendered(&[4, 0xf4, 0x90, 0x80, 0x80], "String"),
        "\"\\u00f4\\u0090\\u0080\\u0080\""
    );
    let text = "q\"\\\n\r\t\u{1}\u{7f}\u{e9}\u{20ac}\u{1f600}";
    let mut cell = vec![text.len() as u8];
    cell.extend_from_slice(text.as_bytes());
    let json = rendered(&cell, "String");
    assert_eq!(json, "\"q\\\"\\\\\\n\\r\\t\\u0001\u{7f}\u{e9}\u{20ac}\u{1f600}\"");
    let back: String = serde_json::from_str(&json).expect("one JSON string");
    assert_eq!(back, text);
}

#[test]
fn a_rendering_depends_on_the_bytes_it_consumes() {
    let cell = [2, 1, 2, 3];
    for tail in [&[][..], &[9, 9][..]] {
        let mut longer = cell[..3].to_vec();
        longer.extend_from_slice(tail);
        assert_eq!(rendered(&longer, "Array(UInt8)"), "[1,2]");
    }
    for k in 0..3 {
        assert_eq!(rendered(&cell[..k], "Array(UInt8)"), "null");
    }
}

#[test]
fn names_of_types_mean_what_they_are_made_of() {
    let nested = |n: usize| format!("{}UInt8{}", "Array(".repeat(n), ")".repeat(n));
    let mut t = ColumnType::parse(&nested(32)).expect("within the cap");
    let mut layers = 0;
    while let ColumnType::Array(inner) = t {
        t = *inner;
        layers += 1;
    }
    assert!(matches!(t, ColumnType::UInt8));
    assert_eq!(layers, 32);
    assert!(ColumnType::parse(&nested(33)).is_none());
    match ColumnType::parse("Tuple(Array(String), Map(UInt8, Int8))") {
        Some(ColumnType::Tuple(fields)) => {
            assert!(matches!(fields[0], ColumnType::Array(_)));
            assert!(matches!(fields[1], ColumnType::Mapping(_, _)));
            assert_eq!(fields.len(), 2);
        }
        other => panic!("got {other:?}"),
    }
    assert!(ColumnType::parse("Tuple(Nope, UInt8)").is_none());
    assert!(ColumnType::parse("Tuple(UInt8, Nope)").is_none());
    assert!(matches!(
        ColumnType::parse(" \t Nullable( LowCardinality(UInt8) ) \n"),
        Some(ColumnType::Nullable(_))
    ));
    for (name, precision) in [("Decimal(9, 2)", 9), ("Decimal32(2)", 9)] {
        match ColumnType::parse(name) {
            Some(ColumnType::Decimal32 { precision: p, scale }) => {
                assert_eq!((p, scale), (precision, 2));
            }
            other => panic!("got {other:?}"),
        }
    }
    assert!(matches!(
        ColumnType::parse("Decimal(39, 5)"),
        Some(ColumnType::Decimal256 { precision: 39, scale: 5 })
    ));
}

#[test]
fn skipping_a_value_needs_all_of_its_bytes() {
    let columns = schema(&[("c", "Array(Nullable(UInt16))")]);
    let row = vec![2, 0, 7, 0, 1];
    assert!(encode_columns(&[row.clone()], &columns, REV).is_ok());
    for k in 0..row.len() {
        match encode_columns(&[row[..k].to_vec()], &columns, REV) {
            Err(Error::BadResponse(m)) => assert!(m.contains("truncated"), "{m}"),
            other => panic!("got {other:?}"),
        }
    }
}

#[test]
fn json_documents_are_utf8() {
    let mut data = 1u64.to_le_bytes().to_vec();
    data.extend_from_slice(&[2, b'{', b'}']);
    let (block, _) = decode(&one_column("JSON", &data), 1, 1).unwrap();
    assert!(matches!(&block.columns[0], DecodedColumn::Json(v) if v == &vec![b"{}".to_vec()]));
    let at = data.len() - 1;
    data[at] = 0xff;
    match decode(&one_column("JSON", &data), 1, 1) {
        Err(Error::InvalidUtf8Encoding(_)) => {}
        other => panic!("got {other:?}"),
    }
    match decode(&one_column("Object('json')", &[1, 0xff]), 1, 1) {
        Err(Error::InvalidUtf8Encoding(_)) => {}
        other => panic!("got {other:?}"),
    }
    // A string column holds any bytes.
    assert!(decode(&one_column("String", &[1, 0xff]), 1, 1).is_ok());
}

#[test]
fn sub_second_precision_has_nine_digits_at_most() {
    assert!(matches!(
        ColumnType::parse("DateTime64(9, 'UTC')"),
        Some(ColumnType::DateTime64 { precision: 9, .. })
    ));
    assert!(ColumnType::parse("DateTime64(10)").is_none());
}

#[test]
fn renderings_are_json() {
    for (cell, type_text, want) in [
        (vec![0xff, 0xff], "Int16", "-1"),
        (vec![1, 2, 0, 7], "Array(Tuple(UInt8, Nullable(UInt8)))", "[[2,7]]"),
        (vec![2, 2, 0, 7, 3, 1], "Array(Tuple(UInt8, Nullable(UInt8)))", "[[2,7],[3,null]]"),
        (vec![1, 1, 0, 0, 127, 1], "Map(IPv4, Bool)", "{\"127.0.0.1\":1}"),
        (vec![1, 1, 5, 0], "Map(Array(UInt8), String)", "{\"[5]\":\"\"}"),
    ] {
        let json = rendered(&cell, type_text);
        assert_eq!(json, want, "{type_text}");
        let parsed: Result<serde_json::Value, _> = serde_json::from_str(&json);
        assert!(parsed.is_ok(), "{json}");
    }
}

#[test]
fn a_value_ends_where_its_own_bytes_do() {
    let t = ColumnType::parse("Array(Nullable(UInt16))").unwrap();
    let row = [9, 2, 0, 7, 0, 1, 9, 9];
    assert_eq!(rb_advance(&row, 1, &t).unwrap(), 6);
    assert_eq!(rb_advance(&row[..6], 1, &t).unwrap(), 6);
    for k in 1..6 {
        assert!(matches!(rb_advance(&row[..k], 1, &t), Err(Error::BadResponse(_))));
    }
    let fixed = ColumnType::parse("UInt64").unwrap();
    assert_eq!(rb_advance(&row, 0, &fixed).unwrap(), 8);
    // A value without bytes.
    let none = ColumnType::parse("FixedString(0)").unwrap();
    assert_eq!(rb_advance(&row, 3, &none).unwrap(), 3);
    let texts = CellTexts::new();
    let (json, n) = rowbinary_to_json_inner(&row[1..], &t, &texts).unwrap();
    assert_eq!((json, n), (b"[7,null]".to_vec(), 5));
    assert_eq!(rowbinary_to_json_inner(&row[1..5], &t, &texts), Err(Gap::Short));
    assert_eq!(rowbinary_to_json_inner(&[], &none, &texts), Ok((b"\"\"".to_vec(), 0)));
}
