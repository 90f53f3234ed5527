use colfile::file::{decode_file, encode_file};
use colfile::model::{Chunk, ColumnData, Field, LogicalType, Schema};
use colfile::page::{decode_page_u64, encode_page_u64};

fn u64_schema() -> Schema {
    Schema {
        fields: vec![Field {
            name: b"n".to_vec(),
            dtype: LogicalType::UInt64,
            nullable: true,
        }],
    }
}

fn page_round_trip(vals: Vec<Option<u64>>) {
    let n = vals.len();
    let pg = encode_page_u64(&vals);
    let back = decode_page_u64(&pg, 0, pg.len(), n as u64).expect("page decode");
    assert_eq!(back, vals);
}

#[test]
fn all_equal_sequence_round_trips() {
    // zero variance: every difference is zero, the bit width is zero
    page_round_trip(vec![Some(7), Some(7), Some(7), Some(7)]);
}

#[test]
fn maximum_single_step_round_trips() {
    page_round_trip(vec![Some(0), Some(u64::MAX)]);
    page_round_trip(vec![Some(u64::MAX), Some(0)]);
}

#[test]
fn descending_and_mixed_sequences_round_trip() {
    page_round_trip(vec![Some(1000), Some(999), Some(0), Some(12345678901234567)]);
    page_round_trip(vec![Some(5)]);
    page_round_trip(vec![]);
}

#[test]
fn nulls_between_values_round_trip() {
    page_round_trip(vec![None, Some(3), None, Some(9), None]);
}

#[test]
fn full_file_with_extreme_integers() {
    let schema = u64_schema();
    let chunk = Chunk {
        rows: 4,
        columns: vec![ColumnData::UInt64(vec![
            Some(u64::MAX),
            Some(0),
            Some(u64::MAX),
            Some(u64::MAX - 1),
        ])],
    };
    let bytes = encode_file(&schema, &chunk);
    let (_s2, c2) = decode_file(&bytes).expect("decode");
    assert_eq!(c2, chunk);
}
