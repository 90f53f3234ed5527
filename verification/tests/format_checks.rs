use colfile::file::{decode_file, encode_file};
use colfile::model::{Chunk, ColumnData, Field, FormatError, LogicalType, Schema};
use colfile::model::column_stats;
use colfile::page::decode_page_utf8;

fn sample_file() -> Vec<u8> {
    let schema = Schema {
        fields: vec![Field {
            name: b"s".to_vec(),
            dtype: LogicalType::Utf8Dict,
            nullable: true,
        }],
    };
    let chunk = Chunk {
        rows: 2,
        columns: vec![ColumnData::Utf8(vec![Some(b"ab".to_vec()), None])],
    };
    encode_file(&schema, &chunk)
}

fn push_u64_le(out: &mut Vec<u8>, v: u64) {
    out.extend_from_slice(&v.to_le_bytes());
}

#[test]
fn missing_magic_is_rejected() {
    let bytes: Vec<u8> = vec![0u8; 64];
    assert_eq!(decode_file(&bytes), Err(FormatError::NotAFileOfThisFormat));
}

#[test]
fn too_short_for_trailer_is_rejected() {
    let bytes: Vec<u8> = vec![67, 79, 76, 49];
    assert_eq!(decode_file(&bytes), Err(FormatError::NotAFileOfThisFormat));
}

#[test]
fn truncated_file_is_rejected() {
    let mut bytes = sample_file();
    bytes.truncate(bytes.len() - 3);
    assert_eq!(decode_file(&bytes), Err(FormatError::NotAFileOfThisFormat));
}

#[test]
fn oversized_footer_length_is_rejected() {
    // a plausible trailer whose footer length exceeds the file
    let mut bytes: Vec<u8> = vec![0u8; 8];
    push_u64_le(&mut bytes, 10_000);
    bytes.extend_from_slice(&[67, 79, 76, 49]);
    assert_eq!(decode_file(&bytes), Err(FormatError::NotAFileOfThisFormat));
}

#[test]
fn corrupted_presence_flag_is_rejected() {
    let mut bytes = sample_file();
    // the first page starts at offset 0: tag, row count, then the flags
    assert_eq!(bytes[0], 0);
    bytes[9] = 7;
    assert_eq!(decode_file(&bytes), Err(FormatError::CorruptPage));
}

#[test]
fn wrong_page_shape_is_a_schema_mismatch() {
    let mut bytes = sample_file();
    // the footer says dictionary-of-string; make the page claim the other shape
    bytes[0] = 1;
    assert_eq!(decode_file(&bytes), Err(FormatError::SchemaMismatch));
}

#[test]
fn dictionary_index_out_of_range_is_fatal() {
    // one row, one valid slot, dictionary of one entry, but the stored run
    // names index 5
    let mut pg: Vec<u8> = vec![0];
    push_u64_le(&mut pg, 1); // row count
    pg.push(1); // the row is set
    push_u64_le(&mut pg, 1); // one dictionary entry
    push_u64_le(&mut pg, 1); // of one byte
    pg.push(b'a');
    push_u64_le(&mut pg, 1); // one run
    push_u64_le(&mut pg, 5); // index 5: out of range
    push_u64_le(&mut pg, 1); // of length 1
    let n = pg.len();
    assert_eq!(decode_page_utf8(&pg, 0, n, 1), Err(FormatError::IndexOutOfRange));
}

#[test]
fn run_count_mismatch_is_a_corrupt_page() {
    // one row, one valid slot, but the runs expand to two slots
    let mut pg: Vec<u8> = vec![0];
    push_u64_le(&mut pg, 1);
    pg.push(1);
    push_u64_le(&mut pg, 1);
    push_u64_le(&mut pg, 1);
    pg.push(b'a');
    push_u64_le(&mut pg, 1);
    push_u64_le(&mut pg, 0);
    push_u64_le(&mut pg, 2);
    let n = pg.len();
    assert_eq!(decode_page_utf8(&pg, 0, n, 1), Err(FormatError::CorruptPage));
}

#[test]
fn null_count_in_statistics() {
    let all_null = ColumnData::UInt64(vec![None, None, None]);
    let st = column_stats(&all_null);
    assert_eq!(st.null_count, 3);
    assert_eq!(st.minmax, None);

    let all_valid = ColumnData::UInt64(vec![Some(4), Some(2), Some(9)]);
    let st = column_stats(&all_valid);
    assert_eq!(st.null_count, 0);
    assert_eq!(st.minmax, Some((2, 9)));

    let mixed = ColumnData::Utf8(vec![Some(b"x".to_vec()), None, None, Some(b"y".to_vec())]);
    let st = column_stats(&mixed);
    assert_eq!(st.null_count, 2);
    assert_eq!(st.minmax, None);
}

#[test]
fn single_valid_integer_statistics() {
    let one = ColumnData::UInt64(vec![None, Some(11)]);
    let st = column_stats(&one);
    assert_eq!(st.null_count, 1);
    assert_eq!(st.minmax, Some((11, 11)));
}
