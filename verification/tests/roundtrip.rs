use colfile::file::{decode_file, encode_file};
use colfile::model::{Chunk, ColumnData, Field, LogicalType, Schema};

fn utf8_field(name: &str) -> Field {
    Field { name: name.as_bytes().to_vec(), dtype: LogicalType::Utf8Dict, nullable: true }
}

fn u64_field(name: &str) -> Field {
    Field { name: name.as_bytes().to_vec(), dtype: LogicalType::UInt64, nullable: true }
}

fn utf8_col(vals: Vec<Option<&str>>) -> ColumnData {
    ColumnData::Utf8(vals.into_iter().map(|v| v.map(|s| s.as_bytes().to_vec())).collect())
}

fn round_trip(schema: &Schema, chunk: &Chunk) {
    let bytes = encode_file(schema, chunk);
    let (schema2, chunk2) = decode_file(&bytes).expect("a freshly written file must decode");
    assert_eq!(&schema2, schema);
    assert_eq!(&chunk2, chunk);
}

#[test]
fn three_rows_two_columns() {
    // column0 has three distinct strings (all runs of length one),
    // column1 delta-encodes to base 0 with differences [1, 1]
    let schema = Schema { fields: vec![utf8_field("c0"), u64_field("c1")] };
    let chunk = Chunk {
        rows: 3,
        columns: vec![
            utf8_col(vec![Some("foo0"), Some("foo1"), Some("foo2")]),
            ColumnData::UInt64(vec![Some(0), Some(1), Some(2)]),
        ],
    };
    round_trip(&schema, &chunk);
}

#[test]
fn twelve_rows_dictionary_wraparound() {
    // ten distinct strings, then "foo0" and "foo1" again: the repeats are not
    // contiguous, so they form fresh runs, and row order must be kept exactly
    let names: Vec<String> = (0..12).map(|i| format!("foo{}", i % 10)).collect();
    let col0 = ColumnData::Utf8(names.iter().map(|s| Some(s.as_bytes().to_vec())).collect());
    let col1 = ColumnData::UInt64((0..12u64).map(Some).collect());
    let schema = Schema { fields: vec![utf8_field("c0"), u64_field("c1")] };
    let chunk = Chunk { rows: 12, columns: vec![col0, col1] };

    let bytes = encode_file(&schema, &chunk);
    let (schema2, chunk2) = decode_file(&bytes).expect("decode");
    assert_eq!(schema2, schema);
    assert_eq!(chunk2.rows, 12);
    match &chunk2.columns[0] {
        ColumnData::Utf8(vals) => {
            for (i, v) in vals.iter().enumerate() {
                let expect = format!("foo{}", i % 10);
                assert_eq!(v.as_ref().expect("set row"), &expect.as_bytes().to_vec());
            }
        },
        _ => panic!("column0 must decode as a string column"),
    }
    assert_eq!(chunk2, chunk);
}

#[test]
fn all_null_dictionary_column_has_empty_dictionary() {
    let schema = Schema { fields: vec![utf8_field("s")] };
    let chunk = Chunk { rows: 4, columns: vec![utf8_col(vec![None, None, None, None])] };
    round_trip(&schema, &chunk);
}

#[test]
fn all_null_integer_column() {
    let schema = Schema { fields: vec![u64_field("n")] };
    let chunk = Chunk { rows: 3, columns: vec![ColumnData::UInt64(vec![None, None, None])] };
    round_trip(&schema, &chunk);
}

#[test]
fn mixed_nulls_both_columns() {
    let schema = Schema { fields: vec![utf8_field("s"), u64_field("n")] };
    let chunk = Chunk {
        rows: 5,
        columns: vec![
            utf8_col(vec![Some("a"), None, Some("a"), Some("b"), None]),
            ColumnData::UInt64(vec![None, Some(7), Some(7), None, Some(100)]),
        ],
    };
    round_trip(&schema, &chunk);
}

#[test]
fn zero_rows_zero_columns() {
    let schema = Schema { fields: vec![] };
    let chunk = Chunk { rows: 0, columns: vec![] };
    round_trip(&schema, &chunk);
}

#[test]
fn zero_rows_with_columns() {
    let schema = Schema { fields: vec![utf8_field("s"), u64_field("n")] };
    let chunk = Chunk {
        rows: 0,
        columns: vec![ColumnData::Utf8(vec![]), ColumnData::UInt64(vec![])],
    };
    round_trip(&schema, &chunk);
}

#[test]
fn repeated_strings_compress_to_runs() {
    let schema = Schema { fields: vec![utf8_field("s")] };
    let chunk = Chunk {
        rows: 6,
        columns: vec![utf8_col(vec![
            Some("x"),
            Some("x"),
            Some("x"),
            Some("y"),
            Some("y"),
            Some("x"),
        ])],
    };
    round_trip(&schema, &chunk);
}

#[test]
fn empty_string_values_round_trip() {
    let schema = Schema { fields: vec![utf8_field("s")] };
    let chunk = Chunk { rows: 2, columns: vec![utf8_col(vec![Some(""), Some("")])] };
    round_trip(&schema, &chunk);
}
